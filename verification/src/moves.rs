//! The four moves of a board. All of them rest on the move of one row to the
//! left: to the right by mirroring each row, up and down by transposing the
//! board before and after.

use vstd::prelude::*;
use crate::board::{grid, is_square, transpose, transpose_board};
use crate::row::{
    combine_array, compact_left, compact_right, fits, lemma_compact_keeps, lemma_compact_left_len,
    mirror_combine,
};

verus! {

/// The cells of row `r` of a board.
pub open spec fn cells_of(board: Seq<Vec<usize>>, r: int) -> Seq<nat> {
    grid(board)[r]
}

/// Every cell of the grid can be held in a machine word.
pub open spec fn grid_fits(g: Seq<Seq<nat>>) -> bool {
    forall|i: int| 0 <= i < g.len() ==> fits(#[trigger] g[i])
}

/// The grid after a move to the left.
pub open spec fn moved_left(g: Seq<Seq<nat>>) -> Seq<Seq<nat>> {
    Seq::new(g.len(), |i: int| compact_left(g[i]))
}

/// The grid after a move to the right.
pub open spec fn moved_right(g: Seq<Seq<nat>>) -> Seq<Seq<nat>> {
    Seq::new(g.len(), |i: int| compact_right(g[i]))
}

/// The grid after a move to the top.
pub open spec fn moved_up(g: Seq<Seq<nat>>) -> Seq<Seq<nat>> {
    transpose(moved_left(transpose(g)))
}

/// The grid after a move to the bottom.
pub open spec fn moved_down(g: Seq<Seq<nat>>) -> Seq<Seq<nat>> {
    transpose(moved_right(transpose(g)))
}

/// A square grid stays square when it is moved to the left or to the right,
/// and when it is transposed.
pub proof fn lemma_moved_square(g: Seq<Seq<nat>>)
    requires
        is_square(g),
    ensures
        is_square(moved_left(g)),
        is_square(moved_right(g)),
        is_square(transpose(g)),
{
    assert forall|i: int| 0 <= i < g.len() implies (#[trigger] moved_left(g)[i]).len()
        == g.len() by {
        lemma_compact_left_len(g[i]);
    }
    assert forall|i: int| 0 <= i < g.len() implies (#[trigger] moved_right(g)[i]).len()
        == g.len() by {
        lemma_compact_left_len(g[i].reverse());
    }
}

/// A square grid fits when its transpose does.
pub proof fn lemma_transpose_fits(g: Seq<Seq<nat>>)
    requires
        is_square(g),
        grid_fits(transpose(g)),
    ensures
        grid_fits(g),
{
    let t = transpose(g);
    assert forall|i: int| 0 <= i < g.len() implies fits(#[trigger] g[i]) by {
        assert forall|j: int| 0 <= j < g[i].len() implies g[i][j] <= usize::MAX by {
            assert(fits(t[j]));
            assert(t[j][i] == g[i][j]);
        }
    }
}

/// `p` holds of every cell of the grid.
pub open spec fn all_cells(g: Seq<Seq<nat>>, p: spec_fn(nat) -> bool) -> bool {
    forall|i: int, j: int| 0 <= i < g.len() && 0 <= j < g[i].len() ==> p(#[trigger] g[i][j])
}

/// What holds of an empty cell, of every tile of a square grid and of its
/// double, holds of every cell of the grid after any of the four moves.
pub proof fn lemma_moves_keep(g: Seq<Seq<nat>>, p: spec_fn(nat) -> bool)
    requires
        is_square(g),
        p(0),
        forall|i: int, j: int|
            0 <= i < g.len() && 0 <= j < g[i].len() && g[i][j] != 0 ==> p(#[trigger] g[i][j]) && p(
                2 * g[i][j],
            ),
    ensures
        all_cells(moved_left(g), p),
        all_cells(moved_right(g), p),
        all_cells(moved_up(g), p),
        all_cells(moved_down(g), p),
{
    let t = transpose(g);
    lemma_moved_square(g);
    lemma_moved_square(t);
    assert forall|i: int, j: int|
        0 <= i < moved_left(g).len() && 0 <= j < moved_left(g)[i].len() implies p(
        #[trigger] moved_left(g)[i][j],
    ) by {
        lemma_row_keeps(g, g, i, p);
        assert(p(compact_left(g[i])[j]));
    }
    assert forall|i: int, j: int|
        0 <= i < moved_right(g).len() && 0 <= j < moved_right(g)[i].len() implies p(
        #[trigger] moved_right(g)[i][j],
    ) by {
        lemma_row_keeps(g, g, i, p);
        assert(p(compact_right(g[i])[j]));
    }
    assert forall|i: int, j: int|
        0 <= i < moved_up(g).len() && 0 <= j < moved_up(g)[i].len() implies p(
        #[trigger] moved_up(g)[i][j],
    ) by {
        lemma_row_keeps(g, t, j, p);
        assert(moved_up(g)[i][j] == moved_left(t)[j][i]);
        assert(p(compact_left(t[j])[i]));
    }
    assert forall|i: int, j: int|
        0 <= i < moved_down(g).len() && 0 <= j < moved_down(g)[i].len() implies p(
        #[trigger] moved_down(g)[i][j],
    ) by {
        lemma_row_keeps(g, t, j, p);
        assert(moved_down(g)[i][j] == moved_right(t)[j][i]);
        assert(p(compact_right(t[j])[i]));
    }
}

/// The step of `lemma_moves_keep` for one row of the grid `h`, which is `g`
/// or its transpose.
proof fn lemma_row_keeps(g: Seq<Seq<nat>>, h: Seq<Seq<nat>>, i: int, p: spec_fn(nat) -> bool)
    requires
        is_square(g),
        h == g || h == transpose(g),
        0 <= i < g.len(),
        p(0),
        forall|i: int, j: int|
            0 <= i < g.len() && 0 <= j < g[i].len() && g[i][j] != 0 ==> p(#[trigger] g[i][j]) && p(
                2 * g[i][j],
            ),
    ensures
        h[i].len() == g.len(),
        forall|j: int| 0 <= j < g.len() ==> p(#[trigger] compact_left(h[i])[j]),
        forall|j: int| 0 <= j < g.len() ==> p(#[trigger] compact_right(h[i])[j]),
{
    assert forall|k: int| 0 <= k < h[i].len() && h[i][k] != 0 implies p(#[trigger] h[i][k]) && p(
        2 * h[i][k],
    ) by {
        if h == g {
        } else {
            assert(h[i][k] == g[k][i]);
            assert(g[k].len() == g.len());
        }
    }
    lemma_compact_keeps(h[i], p);
}

/// The double of every cell of the grid can be held in a machine word.
pub open spec fn has_room(g: Seq<Seq<nat>>) -> bool {
    forall|i: int, j: int| 0 <= i < g.len() && 0 <= j < g[i].len() ==> 2 * #[trigger] g[i][j]
        <= usize::MAX
}

/// On a square grid with room for the double of every cell, each of the four
/// moves gives a grid that fits.
pub proof fn lemma_room_fits(g: Seq<Seq<nat>>)
    requires
        is_square(g),
        has_room(g),
    ensures
        grid_fits(moved_left(g)),
        grid_fits(moved_right(g)),
        grid_fits(moved_up(g)),
        grid_fits(moved_down(g)),
{
    let p = |v: nat| v <= usize::MAX;
    lemma_moves_keep(g, p);
    assert forall|h: Seq<Seq<nat>>| all_cells(h, p) implies #[trigger] grid_fits(h) by {
        assert forall|i: int| 0 <= i < h.len() implies fits(#[trigger] h[i]) by {
            assert forall|j: int| 0 <= j < h[i].len() implies h[i][j] <= usize::MAX by {
                assert(p(h[i][j]));
            }
        }
    }
}

/// Whether the double of every cell of the board can be held in a machine
/// word.
pub fn board_has_room(board: &Vec<Vec<usize>>) -> (yes: bool)
    ensures
        yes == has_room(grid(board@)),
{
    let ghost g = grid(board@);
    let mut i: usize = 0;
    while i < board.len()
        invariant
            i <= board.len(),
            g == grid(board@),
            forall|r: int, c: int| 0 <= r < i && 0 <= c < g[r].len() ==> 2 * #[trigger] g[r][c]
                <= usize::MAX,
        decreases board.len() - i,
    {
        let mut j: usize = 0;
        while j < board[i].len()
            invariant
                i < board.len(),
                j <= board[i as int].len(),
                g == grid(board@),
                forall|r: int, c: int| 0 <= r < i && 0 <= c < g[r].len() ==> 2 * #[trigger] g[r][c]
                    <= usize::MAX,
                forall|c: int| 0 <= c < j ==> 2 * #[trigger] g[i as int][c] <= usize::MAX,
            decreases board[i as int].len() - j,
        {
            if board[i][j] > usize::MAX / 2 {
                assert(2 * g[i as int][j as int] > usize::MAX);
                return false;
            }
            assert(2 * g[i as int][j as int] <= usize::MAX);
            j += 1;
        }
        i += 1;
    }
    true
}

/// Moves every row of the board to the left.
pub fn combine_left(board: &mut Vec<Vec<usize>>)
    requires
        grid_fits(moved_left(grid(old(board)@))),
    ensures
        grid(final(board)@) == moved_left(grid(old(board)@)),
{
    let ghost g = grid(board@);
    let n = board.len();
    for i in 0..n
        invariant
            board.len() == n,
            g.len() == n,
            grid_fits(moved_left(g)),
            forall|r: int| 0 <= r < i ==> cells_of(board@, r) == compact_left(g[r]),
            forall|r: int| i <= r < n ==> cells_of(board@, r) == g[r],
    {
        assert(fits(moved_left(g)[i as int]));
        assert(cells_of(board@, i as int) == g[i as int]);
        let ghost before = board@;
        combine_array(&mut board[i]);
        assert(board@ == before.update(i as int, board[i as int]));
        assert forall|r: int| 0 <= r < n implies cells_of(board@, r) == if r <= i {
            compact_left(g[r])
        } else {
            g[r]
        } by {
            if r != i {
                assert(cells_of(board@, r) == cells_of(before, r));
            } else {
                assert(cells_of(board@, r) == compact_left(cells_of(before, r)));
            }
        }
    }
    assert(grid(board@) =~= moved_left(g)) by {
        assert forall|r: int| 0 <= r < n implies grid(board@)[r] == moved_left(g)[r] by {
            assert(cells_of(board@, r) == compact_left(g[r]));
        }
    }
}

/// Moves every row of the board to the right.
pub fn combine_right(board: &mut Vec<Vec<usize>>)
    requires
        grid_fits(moved_right(grid(old(board)@))),
    ensures
        grid(final(board)@) == moved_right(grid(old(board)@)),
{
    let ghost g = grid(board@);
    let n = board.len();
    for i in 0..n
        invariant
            board.len() == n,
            g.len() == n,
            grid_fits(moved_right(g)),
            forall|r: int| 0 <= r < i ==> cells_of(board@, r) == compact_right(g[r]),
            forall|r: int| i <= r < n ==> cells_of(board@, r) == g[r],
    {
        assert(fits(moved_right(g)[i as int]));
        assert(cells_of(board@, i as int) == g[i as int]);
        let ghost before = board@;
        mirror_combine(&mut board[i]);
        assert(board@ == before.update(i as int, board[i as int]));
        assert forall|r: int| 0 <= r < n implies cells_of(board@, r) == if r <= i {
            compact_right(g[r])
        } else {
            g[r]
        } by {
            if r != i {
                assert(cells_of(board@, r) == cells_of(before, r));
            } else {
                assert(cells_of(board@, r) == compact_right(cells_of(before, r)));
            }
        }
    }
    assert(grid(board@) =~= moved_right(g)) by {
        assert forall|r: int| 0 <= r < n implies grid(board@)[r] == moved_right(g)[r] by {
            assert(cells_of(board@, r) == compact_right(g[r]));
        }
    }
}

/// Moves every column of a square board to the top.
pub fn combine_top(board: &mut Vec<Vec<usize>>)
    requires
        is_square(grid(old(board)@)),
        grid_fits(moved_up(grid(old(board)@))),
    ensures
        grid(final(board)@) == moved_up(grid(old(board)@)),
{
    proof {
        let g = grid(board@);
        lemma_moved_square(g);
        lemma_moved_square(transpose(g));
        lemma_transpose_fits(moved_left(transpose(g)));
    }
    transpose_board(board);
    combine_left(board);
    transpose_board(board);
}

/// Moves every column of a square board to the bottom.
pub fn combine_bottom(board: &mut Vec<Vec<usize>>)
    requires
        is_square(grid(old(board)@)),
        grid_fits(moved_down(grid(old(board)@))),
    ensures
        grid(final(board)@) == moved_down(grid(old(board)@)),
{
    proof {
        let g = grid(board@);
        lemma_moved_square(g);
        lemma_moved_square(transpose(g));
        lemma_transpose_fits(moved_right(transpose(g)));
    }
    transpose_board(board);
    combine_right(board);
    transpose_board(board);
}

} // verus!
