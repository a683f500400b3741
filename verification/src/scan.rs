//! The model behind the row scan: cells that carry a mark once they absorbed
//! a merge, and the facts that let each step of the scan be justified.

use vstd::prelude::*;
use crate::row::{blanks, cells, merge_tiles, tiles};

verus! {

/// The cells of a row in the middle of a scan, each with its merge mark.
pub open spec fn marked(a: Seq<usize>, m: Seq<bool>) -> Seq<(nat, bool)> {
    Seq::new(a.len(), |k: int| (a[k] as nat, m[k]))
}

/// The values of marked cells, marks dropped.
pub open spec fn values(c: Seq<(nat, bool)>) -> Seq<nat> {
    c.map_values(|x: (nat, bool)| x.0)
}

/// The non-empty cells among marked cells.
pub open spec fn live(c: Seq<(nat, bool)>) -> Seq<(nat, bool)> {
    c.filter(|x: (nat, bool)| x.0 != 0)
}

/// Two neighbouring tiles may merge: neither is marked and they are equal.
pub open spec fn fusable(x: (nat, bool), y: (nat, bool)) -> bool {
    !x.1 && !y.1 && x.0 == y.0
}

/// What a list of marked tiles comes to once every merge still allowed has
/// been made from the left.
pub open spec fn settle(t: Seq<(nat, bool)>) -> Seq<nat>
    decreases t.len(),
{
    if t.len() == 0 {
        Seq::empty()
    } else if t.len() >= 2 && fusable(t[0], t[1]) {
        seq![2 * t[0].0] + settle(t.skip(2))
    } else {
        seq![t[0].0] + settle(t.skip(1))
    }
}

/// The tile at `i` cannot merge with the tile before it.
pub open spec fn fresh_at(c: Seq<(nat, bool)>, i: int) -> bool {
    let before = live(c.take(i));
    before.len() == 0 || !fusable(before.last(), c[i])
}

/// The scan has nothing to do at `j`: no tile to slide into `j`, no merge of
/// `j` with `j + 1`.
pub open spec fn calm_at(c: Seq<(nat, bool)>, j: int) -> bool {
    &&& c[j].0 == 0 ==> c[j + 1].0 == 0
    &&& c[j].0 != 0 ==> !fusable(c[j], c[j + 1])
}

/// The scan has nothing to do anywhere in the row.
pub open spec fn calm(c: Seq<(nat, bool)>) -> bool {
    forall|j: int| 0 <= j && j + 1 < c.len() ==> calm_at(c, j)
}

/// The sum, over the tiles of a row, of one more than their index. Every
/// slide and every merge makes it smaller.
pub open spec fn weight(a: Seq<usize>) -> nat
    decreases a.len(),
{
    if a.len() == 0 {
        0
    } else {
        weight(a.drop_last()) + if a.last() != 0 {
            a.len()
        } else {
            0
        }
    }
}

/// Changing one cell changes the weight by what that cell weighs.
pub proof fn lemma_weight_update(a: Seq<usize>, j: int, v: usize)
    requires
        0 <= j < a.len(),
    ensures
        weight(a.update(j, v)) + (if a[j] != 0 { j + 1 } else { 0 })
            == weight(a) + (if v != 0 { j + 1 } else { 0 }),
    decreases a.len(),
{
    let b = a.update(j, v);
    if j == a.len() - 1 {
        assert(b.drop_last() =~= a.drop_last());
    } else {
        assert(b.drop_last() =~= a.drop_last().update(j, v));
        lemma_weight_update(a.drop_last(), j, v);
    }
}

/// A cell more at the end is a tile more at the end, if it is not empty.
pub proof fn lemma_live_push(c: Seq<(nat, bool)>, x: (nat, bool))
    ensures
        live(c.push(x)) == if x.0 != 0 { live(c).push(x) } else { live(c) },
{
    reveal(Seq::filter);
    assert(c.push(x).drop_last() =~= c);
}

/// The tiles before `i + 1` are those before `i`, and cell `i` if it is not
/// empty.
pub proof fn lemma_live_take(c: Seq<(nat, bool)>, i: int)
    requires
        0 <= i < c.len(),
    ensures
        live(c.take(i + 1)) == if c[i].0 != 0 { live(c.take(i)).push(c[i]) } else { live(c.take(i)) },
{
    assert(c.take(i + 1) =~= c.take(i).push(c[i]));
    lemma_live_push(c.take(i), c[i]);
}

/// The tiles of a row and of what follows it are the tiles of both.
pub proof fn lemma_live_add(a: Seq<(nat, bool)>, b: Seq<(nat, bool)>)
    ensures
        live(a + b) == live(a) + live(b),
{
    Seq::filter_distributes_over_add(a, b, |x: (nat, bool)| x.0 != 0);
}

/// No tile is empty.
pub proof fn lemma_live_nonempty(c: Seq<(nat, bool)>)
    ensures
        forall|k: int| 0 <= k < live(c).len() ==> (#[trigger] live(c)[k]).0 != 0,
{
    assert forall|k: int| 0 <= k < live(c).len() implies (#[trigger] live(c)[k]).0 != 0 by {
        c.lemma_filter_pred(|x: (nat, bool)| x.0 != 0, k);
    }
}

/// The tiles of two cells in a row.
pub proof fn lemma_live_pair(x: (nat, bool), y: (nat, bool))
    ensures
        live(seq![x, y]) == if x.0 != 0 && y.0 != 0 {
            seq![x, y]
        } else if x.0 != 0 {
            seq![x]
        } else if y.0 != 0 {
            seq![y]
        } else {
            Seq::empty()
        },
{
    let e = Seq::<(nat, bool)>::empty();
    assert(live(e) =~= e) by {
        reveal(Seq::filter);
    }
    lemma_live_push(e, x);
    lemma_live_push(e.push(x), y);
    assert(seq![x, y] =~= e.push(x).push(y));
    assert(live(seq![x, y]) =~= if x.0 != 0 && y.0 != 0 {
        seq![x, y]
    } else if x.0 != 0 {
        seq![x]
    } else if y.0 != 0 {
        seq![y]
    } else {
        Seq::empty()
    });
}

/// A row cut into the part before `i`, the two cells at `i`, and the rest.
pub proof fn lemma_live_around(c: Seq<(nat, bool)>, i: int)
    requires
        0 <= i,
        i + 1 < c.len(),
    ensures
        live(c) == live(c.take(i)) + live(seq![c[i], c[i + 1]]) + live(c.skip(i + 2)),
{
    let l = c.take(i);
    let mid = seq![c[i], c[i + 1]];
    let r = c.skip(i + 2);
    assert(c =~= (l + mid) + r);
    lemma_live_add(l + mid, r);
    lemma_live_add(l, mid);
}

/// Where two neighbouring tiles cannot merge, the row settles as its two
/// parts do.
pub proof fn lemma_settle_split(t: Seq<(nat, bool)>, k: int)
    requires
        0 <= k <= t.len(),
        0 < k < t.len() ==> !fusable(t[k - 1], t[k]),
    ensures
        settle(t) == settle(t.take(k)) + settle(t.skip(k)),
    decreases t.len(),
{
    if k == 0 {
        assert(t.take(0) =~= Seq::empty());
        assert(t.skip(0) =~= t);
        assert(settle(t.take(0)) + settle(t) =~= settle(t));
    } else if k == t.len() {
        assert(t.take(k) =~= t);
        assert(t.skip(k) =~= Seq::empty());
        assert(settle(t) + settle(t.skip(k)) =~= settle(t));
    } else if t.len() >= 2 && fusable(t[0], t[1]) {
        assert(k >= 2);
        let u = t.skip(2);
        lemma_settle_split(u, k - 2);
        let p = t.take(k);
        assert(p.skip(2) =~= u.take(k - 2));
        assert(u.skip(k - 2) =~= t.skip(k));
        assert(p[0] == t[0] && p[1] == t[1]);
        assert(settle(p) == seq![2 * t[0].0] + settle(p.skip(2)));
        assert(settle(t) =~= settle(p) + settle(t.skip(k)));
    } else {
        let u = t.skip(1);
        lemma_settle_split(u, k - 1);
        let p = t.take(k);
        assert(p.skip(1) =~= u.take(k - 1));
        assert(u.skip(k - 1) =~= t.skip(k));
        assert(p[0] == t[0]);
        if p.len() >= 2 {
            assert(p[1] == t[1]);
        }
        assert(settle(p) == seq![t[0].0] + settle(p.skip(1)));
        assert(settle(t) =~= settle(p) + settle(t.skip(k)));
    }
}

/// With no mark set, settling is merging.
pub proof fn lemma_settle_unmarked(t: Seq<(nat, bool)>)
    requires
        forall|k: int| 0 <= k < t.len() ==> !(#[trigger] t[k]).1,
    ensures
        settle(t) == merge_tiles(values(t)),
    decreases t.len(),
{
    let v = values(t);
    if t.len() == 0 {
    } else if t.len() >= 2 && fusable(t[0], t[1]) {
        lemma_settle_unmarked(t.skip(2));
        assert(values(t.skip(2)) =~= v.skip(2));
    } else {
        lemma_settle_unmarked(t.skip(1));
        assert(values(t.skip(1)) =~= v.skip(1));
        if t.len() >= 2 {
            assert(!t[0].1 && !t[1].1);
        }
    }
}

/// Where no two neighbours can merge, settling changes nothing.
pub proof fn lemma_settle_still(t: Seq<(nat, bool)>)
    requires
        forall|k: int| 0 < k < t.len() ==> !fusable(#[trigger] t[k - 1], t[k]),
    ensures
        settle(t) == values(t),
    decreases t.len(),
{
    if t.len() == 0 {
        assert(settle(t) =~= values(t));
    } else {
        if t.len() >= 2 {
            assert(!fusable(t[1 - 1], t[1]));
        }
        let u = t.skip(1);
        assert forall|k: int| 0 < k < u.len() implies !fusable(#[trigger] u[k - 1], u[k]) by {
            assert(u[k - 1] == t[(k + 1) - 1]);
            assert(!fusable(t[(k + 1) - 1], t[k + 1]));
        }
        lemma_settle_still(u);
        assert(settle(t) =~= values(t));
    }
}

/// The values of the non-empty marked cells are the tiles of the values.
pub proof fn lemma_live_values(c: Seq<(nat, bool)>)
    ensures
        values(live(c)) == tiles(values(c)),
    decreases c.len(),
{
    reveal(Seq::filter);
    if c.len() == 0 {
        assert(values(live(c)) =~= tiles(values(c)));
    } else {
        lemma_live_values(c.drop_last());
        assert(values(c).drop_last() =~= values(c.drop_last()));
        assert(values(live(c)) =~= tiles(values(c)));
    }
}

/// A row without marks settles to its merged tiles.
pub proof fn lemma_settle_start(a: Seq<usize>, m: Seq<bool>)
    requires
        m.len() == a.len(),
        forall|k: int| 0 <= k < m.len() ==> !m[k],
    ensures
        settle(live(marked(a, m))) == merge_tiles(tiles(cells(a))),
{
    let c = marked(a, m);
    assert forall|k: int| 0 <= k < live(c).len() implies !(#[trigger] live(c)[k]).1 by {
        let x = live(c)[k];
        assert(live(c).contains(x));
        c.lemma_filter_contains_rev(|x: (nat, bool)| x.0 != 0, x);
    }
    lemma_settle_unmarked(live(c));
    lemma_live_values(c);
    assert(values(c) =~= cells(a));
}

/// Sliding a tile into the empty cell on its left keeps the tiles.
pub proof fn lemma_slide(c: Seq<(nat, bool)>, i: int)
    requires
        0 <= i,
        i + 1 < c.len(),
        c[i].0 == 0,
    ensures
        live(c.update(i, c[i + 1]).update(i + 1, c[i])) == live(c),
{
    let d = c.update(i, c[i + 1]).update(i + 1, c[i]);
    lemma_live_around(c, i);
    lemma_live_around(d, i);
    assert(d.take(i) =~= c.take(i));
    assert(d.skip(i + 2) =~= c.skip(i + 2));
    lemma_live_pair(c[i], c[i + 1]);
    lemma_live_pair(c[i + 1], c[i]);
}

/// Tiles that follow a tile they cannot merge with settle on their own.
pub proof fn lemma_settle_join(l: Seq<(nat, bool)>, x: Seq<(nat, bool)>)
    requires
        l.len() > 0 && x.len() > 0 ==> !fusable(l.last(), x[0]),
    ensures
        settle(l + x) == settle(l) + settle(x),
{
    let t = l + x;
    let k = l.len() as int;
    assert(t.take(k) =~= l);
    assert(t.skip(k) =~= x);
    if 0 < k < t.len() {
        assert(t[k - 1] == l.last());
        assert(t[k] == x[0]);
    }
    lemma_settle_split(t, k);
}

/// Two tiles that can merge, at the head of a list, settle to their double.
pub proof fn lemma_settle_pair(x: (nat, bool), y: (nat, bool), r: Seq<(nat, bool)>)
    requires
        fusable(x, y),
    ensures
        settle(seq![x, y] + r) == seq![2 * x.0] + settle(r),
{
    let t = seq![x, y] + r;
    assert(t.skip(2) =~= r);
    assert(t[0] == x && t[1] == y);
}

/// A marked tile at the head of a list settles to itself.
pub proof fn lemma_settle_done(x: (nat, bool), r: Seq<(nat, bool)>)
    requires
        x.1,
    ensures
        settle(seq![x] + r) == seq![x.0] + settle(r),
{
    let t = seq![x] + r;
    assert(t.skip(1) =~= r);
    assert(t[0] == x);
}

/// Merging two equal unmarked neighbours, the left one fresh, is a merge that
/// settling makes too: the row settles to the same, and the doubled value is
/// one of the settled values.
pub proof fn lemma_fuse(c: Seq<(nat, bool)>, i: int)
    requires
        0 <= i,
        i + 1 < c.len(),
        c[i].0 != 0,
        fusable(c[i], c[i + 1]),
        fresh_at(c, i),
    ensures
        settle(live(c.update(i, (2 * c[i].0, true)).update(i + 1, (0nat, false)))) == settle(
            live(c),
        ),
        settle(live(c.take(i))).len() < settle(live(c)).len(),
        settle(live(c))[settle(live(c.take(i))).len() as int] == 2 * c[i].0,
{
    let x = c[i];
    let y = c[i + 1];
    let z = (2 * x.0, true);
    let d = c.update(i, z).update(i + 1, (0nat, false));
    let l = live(c.take(i));
    let r = live(c.skip(i + 2));
    assert(live(c) == l + (seq![x, y] + r)) by {
        lemma_live_around(c, i);
        lemma_live_pair(x, y);
        assert((l + seq![x, y]) + r =~= l + (seq![x, y] + r));
    }
    assert(live(d) == l + (seq![z] + r)) by {
        lemma_live_around(d, i);
        assert(d.take(i) =~= c.take(i));
        assert(d.skip(i + 2) =~= c.skip(i + 2));
        lemma_live_pair(d[i], d[i + 1]);
        assert((l + seq![z]) + r =~= l + (seq![z] + r));
    }
    assert(settle(live(c)) == settle(l) + (seq![2 * x.0] + settle(r))) by {
        assert((seq![x, y] + r)[0] == x);
        lemma_settle_join(l, seq![x, y] + r);
        lemma_settle_pair(x, y, r);
    }
    assert(settle(live(d)) == settle(l) + (seq![2 * x.0] + settle(r))) by {
        assert((seq![z] + r)[0] == z);
        lemma_settle_join(l, seq![z] + r);
        lemma_settle_done(z, r);
    }
}

/// The empty cells of a row all lie behind its tiles.
pub open spec fn packed(c: Seq<(nat, bool)>) -> bool {
    forall|j: int| 0 <= j && j + 1 < c.len() && (#[trigger] c[j]).0 == 0 ==> c[j + 1].0 == 0
}

/// A packed row is its tiles, then empty cells.
pub proof fn lemma_packed_prefix(c: Seq<(nat, bool)>)
    requires
        packed(c),
    ensures
        live(c).len() <= c.len(),
        live(c) == c.take(live(c).len() as int),
        forall|j: int| live(c).len() <= j < c.len() ==> (#[trigger] c[j]).0 == 0,
    decreases c.len(),
{
    reveal(Seq::filter);
    if c.len() == 0 {
        assert(live(c) =~= c.take(0));
    } else {
        let b = c.drop_last();
        assert(packed(b)) by {
            assert forall|j: int| 0 <= j && j + 1 < b.len() && (#[trigger] b[j]).0 == 0 implies b[j
                + 1].0 == 0 by {
                assert(b[j] == c[j]);
                assert(b[j + 1] == c[j + 1]);
            }
        }
        lemma_packed_prefix(b);
        let p = live(b).len() as int;
        if c.last().0 == 0 {
            assert(live(c) == live(b));
            assert(b.take(p) =~= c.take(p));
            assert forall|j: int| live(c).len() <= j < c.len() implies (#[trigger] c[j]).0
                == 0 by {
                if j < b.len() {
                    assert(b[j].0 == 0);
                }
            }
        } else {
            if c.len() >= 2 {
                let j = c.len() - 2;
                assert(c[j].0 != 0);
                assert(b[j] == c[j]);
                assert(p == b.len());
            }
            assert(b.take(p) =~= b);
            assert(live(c) == b.push(c.last()));
            assert(b.push(c.last()) =~= c.take(c.len() as int));
        }
    }
}

/// A row in which the scan has nothing to do holds its settled tiles, then
/// empty cells.
pub proof fn lemma_calm_row(c: Seq<(nat, bool)>)
    requires
        calm(c),
    ensures
        settle(live(c)).len() <= c.len(),
        values(c) == settle(live(c)) + blanks((c.len() - settle(live(c)).len()) as nat),
{
    assert(packed(c)) by {
        assert forall|j: int| 0 <= j && j + 1 < c.len() && (#[trigger] c[j]).0 == 0 implies c[j
            + 1].0 == 0 by {
            assert(calm_at(c, j));
        }
    }
    lemma_packed_prefix(c);
    let t = live(c);
    lemma_live_nonempty(c);
    assert forall|k: int| 0 < k < t.len() implies !fusable(#[trigger] t[k - 1], t[k]) by {
        assert(t[k - 1] == c[k - 1]);
        assert(t[k] == c[k]);
        assert(calm_at(c, k - 1));
        assert(t[k - 1].0 != 0);
    }
    lemma_settle_still(t);
    assert(values(c) =~= values(t) + blanks((c.len() - t.len()) as nat));
}

} // verus!
