//! One row of the grid: sliding its tiles to the left edge and merging equal
//! neighbours, each tile taking part in at most one merge.

use vstd::prelude::*;
use crate::scan::{
    calm, calm_at, fresh_at, lemma_calm_row, lemma_fuse, lemma_live_take, lemma_settle_start,
    lemma_slide, lemma_weight_update, live, marked, settle, values, weight,
};

verus! {

/// The cells of a row as natural numbers; `0` is an empty cell.
pub open spec fn cells(row: Seq<usize>) -> Seq<nat> {
    row.map_values(|x: usize| x as nat)
}

/// The tiles of a row: its non-empty cells, in order.
pub open spec fn tiles(row: Seq<nat>) -> Seq<nat> {
    row.filter(|x: nat| x != 0)
}

/// Merges a list of tiles from the left: the first two tiles fuse into one of
/// double value when they are equal, and the fused tile is final.
pub open spec fn merge_tiles(t: Seq<nat>) -> Seq<nat>
    decreases t.len(),
{
    if t.len() == 0 {
        Seq::empty()
    } else if t.len() >= 2 && t[0] == t[1] {
        seq![2 * t[0]] + merge_tiles(t.skip(2))
    } else {
        seq![t[0]] + merge_tiles(t.skip(1))
    }
}

/// `n` empty cells.
pub open spec fn blanks(n: nat) -> Seq<nat> {
    Seq::new(n, |i: int| 0nat)
}

/// A row after a move to the left: the merged tiles, then empty cells up to
/// the row's length.
pub open spec fn compact_left(row: Seq<nat>) -> Seq<nat> {
    let merged = merge_tiles(tiles(row));
    merged + blanks((row.len() - merged.len()) as nat)
}

/// Every cell of the row can be held in a machine word.
pub open spec fn fits(row: Seq<nat>) -> bool {
    forall|j: int| 0 <= j < row.len() ==> row[j] <= usize::MAX
}

/// Moves a row to the left, in place: tiles slide over empty cells towards
/// index 0, and two equal neighbours merge into one tile of double value. A
/// tile that came out of a merge does not merge again in the same call.
///
/// The row is scanned from the left, pass after pass, until a pass neither
/// slides nor merges anything.
pub fn combine_array(array: &mut Vec<usize>)
    requires
        fits(compact_left(cells(old(array)@))),
    ensures
        cells(final(array)@) == compact_left(cells(old(array)@)),
{
    let n = array.len();
    let last = if n == 0 { 0 } else { n - 1 };
    let mut move_or_merge = true;
    let mut merged = vec![false; n];
    let ghost goal = merge_tiles(tiles(cells(array@)));
    proof {
        lemma_settle_start(array@, merged@);
        let row = cells(array@);
        lemma_merge_tiles_len(tiles(row));
        row.lemma_filter_len(|x: nat| x != 0);
        assert forall|j: int| 0 <= j < goal.len() implies goal[j] <= usize::MAX by {
            assert(compact_left(row)[j] == goal[j]);
        }
    }

    while move_or_merge
        invariant
            array.len() == n,
            merged.len() == n,
            last == if n == 0 { 0 } else { n - 1 },
            forall|k: int| 0 <= k < n && merged[k] ==> array[k] != 0,
            settle(live(marked(array@, merged@))) == goal,
            forall|j: int| 0 <= j < goal.len() ==> goal[j] <= usize::MAX,
            !move_or_merge ==> calm(marked(array@, merged@)),
        decreases weight(array@) + if move_or_merge { 1nat } else { 0nat },
    {
        move_or_merge = false;
        let mut i: usize = 0;
        let ghost before = weight(array@);
        proof {
            assert(marked(array@, merged@).take(0) =~= Seq::empty());
            assert(live(Seq::<(nat, bool)>::empty()).len() == 0) by {
                reveal(Seq::filter);
            }
        }
        while i < last
            invariant
                array.len() == n,
                merged.len() == n,
                last == if n == 0 { 0 } else { n - 1 },
                i <= n,
                forall|k: int| 0 <= k < n && merged[k] ==> array[k] != 0,
                settle(live(marked(array@, merged@))) == goal,
                forall|j: int| 0 <= j < goal.len() ==> goal[j] <= usize::MAX,
                i < n && array[i as int] != 0 ==> fresh_at(marked(array@, merged@), i as int),
                weight(array@) <= before,
                move_or_merge ==> weight(array@) < before,
                !move_or_merge ==> forall|j: int|
                    0 <= j < i && j + 1 < n ==> calm_at(marked(array@, merged@), j),
            decreases n - i,
        {
            let ghost c = marked(array@, merged@);
            let ghost a = array@;
            if array[i] == 0 && array[i + 1] == 0 {
                i += 1;
                continue ;
            } else if array[i] == 0 && array[i + 1] != 0 {
                array[i] = array[i + 1];
                array[i + 1] = 0;
                if merged[i + 1] {
                    merged[i] = true;
                    merged[i + 1] = false;
                }
                proof {
                    let d = marked(array@, merged@);
                    assert(d =~= c.update(i as int, c[i + 1]).update(i + 1, c[i as int]));
                    lemma_slide(c, i as int);
                    lemma_weight_update(a, i as int, a[i + 1]);
                    lemma_weight_update(a.update(i as int, a[i + 1]), i + 1, 0);
                    assert(array@ =~= a.update(i as int, a[i + 1]).update(i + 1, 0));
                }
                move_or_merge = true;
            } else if !merged[i] && !merged[i + 1] && array[i] == array[i + 1] {
                proof {
                    lemma_fuse(c, i as int);
                    let at = settle(live(c.take(i as int))).len() as int;
                    assert(goal[at] == 2 * array[i as int]);
                }
                array[i] *= 2;
                array[i + 1] = 0;
                merged[i] = true;
                proof {
                    let d = marked(array@, merged@);
                    let z = (2 * c[i as int].0, true);
                    assert(d =~= c.update(i as int, z).update(i + 1, (0nat, false)));
                    let doubled = (2 * a[i as int]) as usize;
                    lemma_weight_update(a, i as int, doubled);
                    lemma_weight_update(a.update(i as int, doubled), i + 1, 0);
                    assert(array@ =~= a.update(i as int, doubled).update(i + 1, 0));
                    // the tile that follows the merged one starts afresh
                    if i + 2 < n {
                        lemma_live_take(d, i as int);
                        lemma_live_take(d, i + 1);
                        assert(live(d.take(i + 2)).last() == z);
                    }
                }
                i += 1;
                move_or_merge = true;
            } else {
                proof {
                    if array[i + 1] != 0 {
                        lemma_live_take(c, i as int);
                    }
                }
            }

            i += 1;
        }
        proof {
            if !move_or_merge {
                let c = marked(array@, merged@);
                assert forall|j: int| 0 <= j && j + 1 < c.len() implies calm_at(c, j) by {}
            }
        }
    }
    proof {
        let c = marked(array@, merged@);
        lemma_calm_row(c);
        assert(values(c) =~= cells(array@));
    }
}

/// A row after a move to the right: the move to the left, seen in a mirror.
pub open spec fn compact_right(row: Seq<nat>) -> Seq<nat> {
    compact_left(row.reverse()).reverse()
}

/// Turns a row end for end, in place.
pub fn reverse_row(row: &mut Vec<usize>)
    ensures
        final(row)@ == old(row)@.reverse(),
{
    let n = row.len();
    let mut i: usize = 0;
    while i < n / 2
        invariant
            row.len() == n,
            i <= n / 2,
            forall|k: int| 0 <= k < i ==> row[k] == old(row)[n - 1 - k],
            forall|k: int| 0 <= k < i ==> row[n - 1 - k] == old(row)[k],
            forall|k: int| i <= k < n - i ==> row[k] == old(row)[k],
        decreases n / 2 - i,
    {
        let left = row[i];
        row[i] = row[n - 1 - i];
        row[n - 1 - i] = left;
        i += 1;
    }
    assert(row@ =~= old(row)@.reverse());
}

/// Moves a row to the right, in place: the row is turned round, moved to the
/// left, and turned round again.
pub fn mirror_combine(row: &mut Vec<usize>)
    requires
        fits(compact_right(cells(old(row)@))),
    ensures
        cells(final(row)@) == compact_right(cells(old(row)@)),
{
    proof {
        let turned = cells(old(row)@).reverse();
        assert(cells(old(row)@.reverse()) =~= turned);
        lemma_compact_left_len(turned);
        assert forall|j: int| 0 <= j < compact_left(turned).len() implies compact_left(turned)[j]
            <= usize::MAX by {
            let k = compact_left(turned).len() - 1 - j;
            assert(compact_right(cells(old(row)@))[k] == compact_left(turned)[j]);
        }
    }
    reverse_row(row);
    combine_array(row);
    let ghost moved = row@;
    reverse_row(row);
    proof {
        assert(cells(moved.reverse()) =~= cells(moved).reverse());
    }
}

/// A move keeps the length of the row.
pub proof fn lemma_compact_left_len(row: Seq<nat>)
    ensures
        merge_tiles(tiles(row)).len() <= row.len(),
        compact_left(row).len() == row.len(),
{
    lemma_merge_tiles_len(tiles(row));
    row.lemma_filter_len(|x: nat| x != 0);
}

/// What holds of every tile and of its double holds of every merged tile.
pub proof fn lemma_merge_tiles_keeps(t: Seq<nat>, p: spec_fn(nat) -> bool)
    requires
        forall|k: int| 0 <= k < t.len() ==> p(#[trigger] t[k]) && p(2 * t[k]),
    ensures
        forall|j: int| 0 <= j < merge_tiles(t).len() ==> p(#[trigger] merge_tiles(t)[j]),
    decreases t.len(),
{
    if t.len() == 0 {
    } else {
        assert(p(t[0]) && p(2 * t[0]));
        let rest = if t.len() >= 2 && t[0] == t[1] {
            t.skip(2)
        } else {
            t.skip(1)
        };
        assert forall|k: int| 0 <= k < rest.len() implies p(#[trigger] rest[k]) && p(
            2 * rest[k],
        ) by {
            let at = k + (t.len() - rest.len());
            assert(rest[k] == t[at]);
        }
        lemma_merge_tiles_keeps(rest, p);
        let m = merge_tiles(t);
        assert forall|j: int| 0 <= j < m.len() implies p(#[trigger] m[j]) by {
            if j > 0 {
                assert(m[j] == merge_tiles(rest)[j - 1]);
            }
        }
    }
}

/// What holds of an empty cell, of every tile of a row and of its double,
/// holds of every cell of the row after a move.
pub proof fn lemma_compact_keeps(row: Seq<nat>, p: spec_fn(nat) -> bool)
    requires
        p(0),
        forall|k: int| 0 <= k < row.len() && row[k] != 0 ==> p(#[trigger] row[k]) && p(2 * row[k]),
    ensures
        forall|j: int| 0 <= j < row.len() ==> p(#[trigger] compact_left(row)[j]),
        forall|j: int| 0 <= j < row.len() ==> p(#[trigger] compact_right(row)[j]),
{
    lemma_compact_left_len(row);
    lemma_tiles_of(row);
    lemma_merge_tiles_keeps(tiles(row), p);
    let turned = row.reverse();
    lemma_compact_left_len(turned);
    lemma_tiles_of(turned);
    lemma_merge_tiles_keeps(tiles(turned), p);
    assert forall|j: int| 0 <= j < row.len() implies p(#[trigger] compact_right(row)[j]) by {
        let k = row.len() - 1 - j;
        assert(compact_right(row)[j] == compact_left(turned)[k]);
        assert(p(compact_left(turned)[k]));
    }
}

/// Every tile of a row is a non-empty cell of it.
pub proof fn lemma_tiles_of(row: Seq<nat>)
    ensures
        forall|k: int|
            0 <= k < tiles(row).len() ==> (#[trigger] tiles(row)[k]) != 0 && row.contains(
                tiles(row)[k],
            ),
{
    assert forall|k: int| 0 <= k < tiles(row).len() implies (#[trigger] tiles(row)[k]) != 0
        && row.contains(tiles(row)[k]) by {
        let x = tiles(row)[k];
        row.lemma_filter_pred(|x: nat| x != 0, k);
        assert(tiles(row).contains(x));
        row.lemma_filter_contains_rev(|x: nat| x != 0, x);
    }
}

/// Merging never yields more tiles than it was given.
pub proof fn lemma_merge_tiles_len(t: Seq<nat>)
    ensures
        merge_tiles(t).len() <= t.len(),
    decreases t.len(),
{
    if t.len() == 0 {
    } else if t.len() >= 2 && t[0] == t[1] {
        lemma_merge_tiles_len(t.skip(2));
    } else {
        lemma_merge_tiles_len(t.skip(1));
    }
}

} // verus!
