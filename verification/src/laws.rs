//! What the moves have in common: how often a move may be repeated, what a
//! mirror does to it, and how many tiles it leaves.

use vstd::prelude::*;
use crate::board::{is_square, transpose};
use crate::moves::{lemma_moved_square, moved_down, moved_left, moved_right, moved_up};
use crate::row::{
    blanks, compact_left, compact_right, lemma_compact_left_len, lemma_merge_tiles_keeps,
    lemma_merge_tiles_len, lemma_tiles_of, merge_tiles, tiles,
};
use crate::tally::{lemma_blank_grid_tiles, lemma_blank_row_tiles, tile_count};

verus! {

/// No tile of the row has an equal right neighbour.
pub open spec fn is_settled(row: Seq<nat>) -> bool {
    forall|j: int| 0 <= j && j + 1 < row.len() && #[trigger] row[j] != 0 ==> row[j] != row[j + 1]
}

/// Tiles without an empty cell among them are their own tiles.
pub proof fn lemma_tiles_of_tiles(t: Seq<nat>)
    requires
        forall|k: int| 0 <= k < t.len() ==> t[k] != 0,
    ensures
        tiles(t) == t,
    decreases t.len(),
{
    reveal(Seq::filter);
    if t.len() > 0 {
        lemma_tiles_of_tiles(t.drop_last());
        assert(t.drop_last().push(t.last()) =~= t);
    }
}

/// The tiles of a row and of what follows it are the tiles of both.
pub proof fn lemma_tiles_add(a: Seq<nat>, b: Seq<nat>)
    ensures
        tiles(a + b) == tiles(a) + tiles(b),
{
    Seq::filter_distributes_over_add(a, b, |x: nat| x != 0);
}

/// After a move to the left, the tiles of the row are the merged tiles of
/// the row before.
pub proof fn lemma_tiles_after_move(row: Seq<nat>)
    ensures
        tiles(compact_left(row)) == merge_tiles(tiles(row)),
{
    let merged = merge_tiles(tiles(row));
    let rest = blanks((row.len() - merged.len()) as nat);
    lemma_tiles_of(row);
    lemma_merge_tiles_keeps(tiles(row), |v: nat| v != 0);
    lemma_tiles_of_tiles(merged);
    lemma_blank_row_tiles(rest);
    lemma_tiles_add(merged, rest);
    assert(merged + tiles(rest) =~= merged);
}

/// Tiles merge to as many tiles exactly when no two neighbours are equal,
/// and then merging changes nothing.
pub proof fn lemma_merge_tiles_same(t: Seq<nat>)
    ensures
        merge_tiles(t).len() == t.len() <==> forall|k: int|
            0 <= k && k + 1 < t.len() ==> #[trigger] t[k] != t[k + 1],
        merge_tiles(t).len() == t.len() ==> merge_tiles(t) == t,
    decreases t.len(),
{
    if t.len() == 0 {
        assert(merge_tiles(t) =~= t);
    } else if t.len() >= 2 && t[0] == t[1] {
        lemma_merge_tiles_len(t.skip(2));
    } else {
        let rest = t.skip(1);
        lemma_merge_tiles_same(rest);
        if merge_tiles(t).len() == t.len() {
            assert(merge_tiles(t) =~= t);
            assert forall|k: int| 0 <= k && k + 1 < t.len() implies #[trigger] t[k] != t[k
                + 1] by {
                if k > 0 {
                    assert(rest[k - 1] != rest[k - 1 + 1]);
                }
            }
        }
        if forall|k: int| 0 <= k && k + 1 < t.len() ==> #[trigger] t[k] != t[k + 1] {
            assert forall|k: int| 0 <= k && k + 1 < rest.len() implies #[trigger] rest[k]
                != rest[k + 1] by {
                assert(t[k + 1] != t[k + 1 + 1]);
            }
        }
    }
}

/// A row after a move to the left is its merged tiles, none of them empty,
/// then empty cells.
pub proof fn lemma_move_shape(row: Seq<nat>)
    ensures
        merge_tiles(tiles(row)).len() <= row.len(),
        compact_left(row).len() == row.len(),
        tiles(compact_left(row)) == merge_tiles(tiles(row)),
        forall|j: int|
            0 <= j < merge_tiles(tiles(row)).len() ==> #[trigger] compact_left(row)[j]
                == merge_tiles(tiles(row))[j] && compact_left(row)[j] != 0,
        forall|j: int|
            merge_tiles(tiles(row)).len() <= j < row.len() ==> #[trigger] compact_left(row)[j] == 0,
{
    lemma_compact_left_len(row);
    lemma_tiles_after_move(row);
    lemma_tiles_of(row);
    lemma_merge_tiles_keeps(tiles(row), |v: nat| v != 0);
}

/// A row moved to the left, with no tile left beside an equal one, does not
/// move again.
proof fn lemma_settled_stays(row: Seq<nat>)
    requires
        is_settled(compact_left(row)),
    ensures
        compact_left(compact_left(row)) == compact_left(row),
{
    let once = compact_left(row);
    let merged = merge_tiles(tiles(row));
    lemma_move_shape(row);
    assert forall|k: int| 0 <= k && k + 1 < merged.len() implies #[trigger] merged[k] != merged[k
        + 1] by {
        assert(once[k] == merged[k] && once[k] != 0);
        assert(once[k + 1] == merged[k + 1]);
    }
    lemma_merge_tiles_same(merged);
    assert(merge_tiles(tiles(once)) == merged);
    assert(compact_left(once) =~= once);
}

/// A row that a second move to the left does not change has no tile beside
/// an equal one after the first.
proof fn lemma_stays_settled(row: Seq<nat>)
    requires
        compact_left(compact_left(row)) == compact_left(row),
    ensures
        is_settled(compact_left(row)),
{
    let once = compact_left(row);
    let merged = merge_tiles(tiles(row));
    let again = merge_tiles(merged);
    lemma_move_shape(row);
    lemma_move_shape(once);
    lemma_merge_tiles_len(merged);
    if again.len() < merged.len() {
        let at = again.len() as int;
        assert(compact_left(once)[at] == 0);
        assert(once[at] != 0);
    }
    lemma_merge_tiles_same(merged);
    assert forall|j: int| 0 <= j && j + 1 < once.len() && #[trigger] once[j] != 0 implies once[j]
        != once[j + 1] by {
        if j + 1 < merged.len() {
            assert(once[j] == merged[j]);
            assert(once[j + 1] == merged[j + 1]);
            assert(merged[j] != merged[j + 1]);
        } else {
            assert(once[j + 1] == 0);
        }
    }
}

/// A second move to the left changes nothing exactly when the first left no
/// tile beside an equal one. The row `[2, 2, 4]` is one that moves twice:
/// first to `[4, 4, 0]`, then to `[8, 0, 0]`.
pub proof fn lemma_compact_left_twice(row: Seq<nat>)
    ensures
        compact_left(compact_left(row)) == compact_left(row) <==> is_settled(compact_left(row)),
{
    if is_settled(compact_left(row)) {
        lemma_settled_stays(row);
    }
    if compact_left(compact_left(row)) == compact_left(row) {
        lemma_stays_settled(row);
    }
}

/// A row turned round twice is the row.
pub proof fn lemma_reverse_twice(row: Seq<nat>)
    ensures
        row.reverse().reverse() == row,
{
    assert(row.reverse().reverse() =~= row);
}

/// A move to the right of the row turned round is the move to the left,
/// turned round; and the other way about.
pub proof fn lemma_mirror(row: Seq<nat>)
    ensures
        compact_right(row.reverse()) == compact_left(row).reverse(),
        compact_left(row.reverse()) == compact_right(row).reverse(),
{
    lemma_reverse_twice(row);
    lemma_reverse_twice(compact_left(row.reverse()));
}

/// The tiles of a row turned round are its tiles, turned round.
pub proof fn lemma_tiles_reverse(row: Seq<nat>)
    ensures
        tiles(row.reverse()) == tiles(row).reverse(),
    decreases row.len(),
{
    reveal(Seq::filter);
    if row.len() == 0 {
        assert(row.reverse() =~= row);
        assert(tiles(row).reverse() =~= tiles(row));
    } else {
        let rest = row.drop_last();
        let x = row.last();
        lemma_tiles_reverse(rest);
        assert(row.reverse() =~= seq![x] + rest.reverse());
        lemma_tiles_add(seq![x], rest.reverse());
        assert(tiles(seq![x]) =~= if x != 0 { seq![x] } else { Seq::empty() }) by {
            reveal_with_fuel(Seq::filter, 2);
            assert(seq![x].drop_last() =~= Seq::<nat>::empty());
        }
        assert(tiles(row.reverse()) =~= tiles(row).reverse());
    }
}

/// A move of a row, to the left or to the right, leaves no more tiles than
/// there were.
pub proof fn lemma_row_move_tiles(row: Seq<nat>)
    ensures
        tiles(compact_left(row)).len() <= tiles(row).len(),
        tiles(compact_right(row)).len() <= tiles(row).len(),
{
    lemma_tiles_after_move(row);
    lemma_merge_tiles_len(tiles(row));
    let turned = row.reverse();
    lemma_tiles_after_move(turned);
    lemma_merge_tiles_len(tiles(turned));
    lemma_tiles_reverse(row);
    lemma_tiles_reverse(compact_left(turned));
}

/// A move of the rows of a grid leaves no more tiles than there were.
pub proof fn lemma_rows_move_tiles(g: Seq<Seq<nat>>)
    ensures
        tile_count(moved_left(g)) <= tile_count(g),
        tile_count(moved_right(g)) <= tile_count(g),
    decreases g.len(),
{
    if g.len() > 0 {
        let rest = g.drop_last();
        lemma_rows_move_tiles(rest);
        lemma_row_move_tiles(g.last());
        assert(moved_left(g).drop_last() =~= moved_left(rest));
        assert(moved_right(g).drop_last() =~= moved_right(rest));
    }
}

/// The columns of a grid whose rows are `width` long, each as a row.
pub open spec fn columns(g: Seq<Seq<nat>>, width: nat) -> Seq<Seq<nat>> {
    Seq::new(width, |j: int| Seq::new(g.len(), |i: int| g[i][j]))
}

/// A grid whose rows each got one more cell has the tiles it had and those
/// among the new cells.
proof fn lemma_tile_count_widen(a: Seq<Seq<nat>>, b: Seq<Seq<nat>>, added: Seq<nat>)
    requires
        a.len() == added.len(),
        b.len() == added.len(),
        forall|j: int| 0 <= j < added.len() ==> #[trigger] b[j] == a[j].push(added[j]),
    ensures
        tile_count(b) == tile_count(a) + tiles(added).len(),
    decreases added.len(),
{
    reveal(Seq::filter);
    if added.len() > 0 {
        let last = added.len() - 1;
        assert(b[last] == a[last].push(added[last]));
        assert(b[last].drop_last() =~= a[last]);
        assert forall|j: int| 0 <= j < added.drop_last().len() implies #[trigger] b.drop_last()[j]
            == a.drop_last()[j].push(added.drop_last()[j]) by {
            assert(b[j] == a[j].push(added[j]));
        }
        lemma_tile_count_widen(a.drop_last(), b.drop_last(), added.drop_last());
    }
}

/// The columns of a grid hold as many tiles as its rows.
pub proof fn lemma_columns_tiles(g: Seq<Seq<nat>>, width: nat)
    requires
        forall|i: int| 0 <= i < g.len() ==> (#[trigger] g[i]).len() == width,
    ensures
        tile_count(columns(g, width)) == tile_count(g),
    decreases g.len(),
{
    if g.len() == 0 {
        lemma_blank_grid_tiles(columns(g, width));
    } else {
        let rest = g.drop_last();
        assert forall|i: int| 0 <= i < rest.len() implies (#[trigger] rest[i]).len() == width by {
            assert(rest[i] == g[i]);
        }
        lemma_columns_tiles(rest, width);
        let a = columns(rest, width);
        let b = columns(g, width);
        assert forall|j: int| 0 <= j < width implies #[trigger] b[j] == a[j].push(g.last()[j]) by {
            assert(b[j] =~= a[j].push(g.last()[j]));
        }
        lemma_tile_count_widen(a, b, g.last());
    }
}

/// A square grid and its transpose hold as many tiles.
pub proof fn lemma_transpose_tiles(g: Seq<Seq<nat>>)
    requires
        is_square(g),
    ensures
        tile_count(transpose(g)) == tile_count(g),
{
    assert(transpose(g) =~~= columns(g, g.len()));
    lemma_columns_tiles(g, g.len());
}

/// None of the four moves leaves more tiles on a square grid than there
/// were.
pub proof fn lemma_moves_tiles(g: Seq<Seq<nat>>)
    requires
        is_square(g),
    ensures
        tile_count(moved_left(g)) <= tile_count(g),
        tile_count(moved_right(g)) <= tile_count(g),
        tile_count(moved_up(g)) <= tile_count(g),
        tile_count(moved_down(g)) <= tile_count(g),
{
    let t = transpose(g);
    lemma_rows_move_tiles(g);
    lemma_rows_move_tiles(t);
    lemma_moved_square(g);
    lemma_moved_square(t);
    lemma_transpose_tiles(g);
    lemma_transpose_tiles(moved_left(t));
    lemma_transpose_tiles(moved_right(t));
}

} // verus!
