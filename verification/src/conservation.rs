//! Permutation conservation: every move rearranges the facelets without
//! creating or destroying any, so the multiset of facelet values of the
//! whole grid never changes, and each of the six values keeps exactly
//! `size * size` occurrences.

use vstd::prelude::*;

verus! {

use crate::cube_puzzle::{
    cycle_at,
    cycles_below,
    col_of,
    parse_all,
    scramble_applied,
    fb_cycled,
    move_applied,
    moves_applied,
    rev_fb_cycled,
    rl_cycled,
    single_turn,
    solved_grid,
    ud_cycled,
    wf_grid,
    with_col,
    with_face_rotated,
};
use crate::laws::{
    lemma_cb_wf,
    lemma_cycle_at_wf,
    lemma_move_wf,
    lemma_rot_grid_wf,
    lemma_rot_pair,
    lemma_rot_square,
    lemma_turn_wf,
};
use crate::puzzles::cube::{Direction, Face, Move, tokens_of};
use crate::rotations::{is_square, rotated_ccw, rotated_cw};
use vstd::multiset::Multiset;
use vstd::seq_lib::lemma_multiset_commutative;

broadcast use {vstd::multiset::group_multiset_axioms, vstd::seq_lib::group_to_multiset_ensures};

/// All rows of a face laid end to end.
pub open spec fn rows_joined(m: Seq<Seq<i8>>) -> Seq<i8>
    decreases m.len(),
{
    if m.len() == 0 {
        Seq::empty()
    } else {
        rows_joined(m.drop_last()) + m.last()
    }
}

/// All cells of the grid laid end to end, face by face.
pub open spec fn grid_cells(g: Seq<Seq<Seq<i8>>>) -> Seq<i8>
    decreases g.len(),
{
    if g.len() == 0 {
        Seq::empty()
    } else {
        grid_cells(g.drop_last()) + rows_joined(g.last())
    }
}

/// The multiset of all facelet values of the grid.
pub open spec fn grid_ms(g: Seq<Seq<Seq<i8>>>) -> Multiset<i8> {
    grid_cells(g).to_multiset()
}

/// Replacing one row changes the face's multiset by removing the old row's
/// values and adding the new ones.
proof fn lemma_rows_update(m: Seq<Seq<i8>>, i: int, v: Seq<i8>)
    requires
        0 <= i < m.len(),
    ensures
        rows_joined(m.update(i, v)).to_multiset() == rows_joined(
            m.update(i, Seq::<i8>::empty()),
        ).to_multiset().add(v.to_multiset()),
    decreases m.len(),
{
    let mu = m.update(i, v);
    let me = m.update(i, Seq::<i8>::empty());
    if i == m.len() - 1 {
        assert(mu.drop_last() =~= m.drop_last());
        assert(me.drop_last() =~= m.drop_last());
        assert(mu.last() == v);
        assert(me.last() =~= Seq::<i8>::empty());
        lemma_multiset_commutative(rows_joined(m.drop_last()), v);
        lemma_multiset_commutative(rows_joined(m.drop_last()), Seq::<i8>::empty());
        assert(Seq::<i8>::empty().to_multiset() =~= Multiset::<i8>::empty());
        assert(rows_joined(mu).to_multiset() =~= rows_joined(me).to_multiset().add(
            v.to_multiset(),
        ));
    } else {
        let dl = m.drop_last();
        assert(mu.drop_last() =~= dl.update(i, v));
        assert(me.drop_last() =~= dl.update(i, Seq::<i8>::empty()));
        assert(mu.last() == m.last());
        assert(me.last() == m.last());
        lemma_rows_update(dl, i, v);
        lemma_multiset_commutative(rows_joined(dl.update(i, v)), m.last());
        lemma_multiset_commutative(rows_joined(dl.update(i, Seq::<i8>::empty())), m.last());
        assert(rows_joined(mu).to_multiset() =~= rows_joined(me).to_multiset().add(
            v.to_multiset(),
        ));
    }
}

/// Replacing one face changes the grid's multiset by removing the old
/// face's values and adding the new ones.
proof fn lemma_grid_update(g: Seq<Seq<Seq<i8>>>, f: int, m: Seq<Seq<i8>>)
    requires
        0 <= f < g.len(),
    ensures
        grid_cells(g.update(f, m)).to_multiset() == grid_cells(
            g.update(f, Seq::<Seq<i8>>::empty()),
        ).to_multiset().add(rows_joined(m).to_multiset()),
    decreases g.len(),
{
    let gu = g.update(f, m);
    let ge = g.update(f, Seq::<Seq<i8>>::empty());
    if f == g.len() - 1 {
        assert(gu.drop_last() =~= g.drop_last());
        assert(ge.drop_last() =~= g.drop_last());
        assert(gu.last() == m);
        assert(ge.last() =~= Seq::<Seq<i8>>::empty());
        lemma_multiset_commutative(grid_cells(g.drop_last()), rows_joined(m));
        lemma_multiset_commutative(grid_cells(g.drop_last()), rows_joined(Seq::empty()));
        assert(rows_joined(Seq::<Seq<i8>>::empty()).to_multiset() =~= Multiset::<i8>::empty());
        assert(grid_cells(gu).to_multiset() =~= grid_cells(ge).to_multiset().add(
            rows_joined(m).to_multiset(),
        ));
    } else {
        let dl = g.drop_last();
        assert(gu.drop_last() =~= dl.update(f, m));
        assert(ge.drop_last() =~= dl.update(f, Seq::<Seq<i8>>::empty()));
        assert(gu.last() == g.last());
        assert(ge.last() == g.last());
        lemma_grid_update(dl, f, m);
        lemma_multiset_commutative(grid_cells(dl.update(f, m)), rows_joined(g.last()));
        lemma_multiset_commutative(
            grid_cells(dl.update(f, Seq::<Seq<i8>>::empty())),
            rows_joined(g.last()),
        );
        assert(grid_cells(gu).to_multiset() =~= grid_cells(ge).to_multiset().add(
            rows_joined(m).to_multiset(),
        ));
    }
}

/// Replacing one cell of a row trades the old value for the new one.
proof fn lemma_row_update_elem(row: Seq<i8>, c: int, x: i8)
    requires
        0 <= c < row.len(),
    ensures
        row.update(c, x).to_multiset().insert(row[c]) == row.to_multiset().insert(x),
{
    assert(row.update(c, x) =~= row.remove(c).insert(c, x));
    assert(row.remove(c).to_multiset() == row.to_multiset().remove(row[c]));
    assert(row.remove(c).insert(c, x).to_multiset() == row.remove(c).to_multiset().insert(x));
    assert(row.to_multiset().count(row[c]) >= 1) by {
        assert(row.to_multiset().contains(row[c]));
    }
    assert(row.to_multiset().remove(row[c]).insert(x).insert(row[c]) =~= row.to_multiset().insert(
        x,
    ));
}

/// Replacing one column trades the old column's values for the new ones.
proof fn lemma_with_col_ms(m: Seq<Seq<i8>>, c: int, v: Seq<i8>)
    requires
        v.len() >= m.len(),
        forall|i: int| 0 <= i < m.len() ==> 0 <= c < (#[trigger] m[i]).len(),
    ensures
        rows_joined(with_col(m, c, v)).to_multiset().add(
            col_of(m, c, m.len() as int).to_multiset(),
        ) == rows_joined(m).to_multiset().add(v.take(m.len() as int).to_multiset()),
    decreases m.len(),
{
    let r = m.len() as int;
    if m.len() == 0 {
        assert(with_col(m, c, v) =~= Seq::<Seq<i8>>::empty());
        assert(col_of(m, c, 0) =~= Seq::<i8>::empty());
        assert(v.take(0) =~= Seq::<i8>::empty());
        assert(Seq::<i8>::empty().to_multiset() =~= Multiset::<i8>::empty());
    } else {
        let dl = m.drop_last();
        let w = with_col(m, c, v);
        assert(w.drop_last() =~= with_col(dl, c, v));
        assert(w.last() == m.last().update(c, v[r - 1]));
        lemma_with_col_ms(dl, c, v);
        // join the last rows back on
        lemma_multiset_commutative(rows_joined(with_col(dl, c, v)), w.last());
        lemma_multiset_commutative(rows_joined(dl), m.last());
        // the old column decomposes into its first rows and its last cell
        assert(col_of(m, c, r) =~= col_of(dl, c, r - 1).push(m.last()[c]));
        assert(col_of(m, c, r).to_multiset() == col_of(dl, c, r - 1).to_multiset().insert(
            m.last()[c],
        ));
        assert(v.take(r) =~= v.take(r - 1).push(v[r - 1]));
        assert(v.take(r).to_multiset() == v.take(r - 1).to_multiset().insert(v[r - 1]));
        lemma_row_update_elem(m.last(), c, v[r - 1]);
        assert(rows_joined(w).to_multiset() == rows_joined(with_col(dl, c, v)).to_multiset().add(
            w.last().to_multiset(),
        ));
        assert(rows_joined(m).to_multiset() == rows_joined(dl).to_multiset().add(
            m.last().to_multiset(),
        ));
        let ihl = rows_joined(with_col(dl, c, v)).to_multiset();
        let ihc = col_of(dl, c, r - 1).to_multiset();
        let ihr = rows_joined(dl).to_multiset();
        let ihv = v.take(r - 1).to_multiset();
        assert(ihl.add(ihc) == ihr.add(ihv));
        let wl = w.last().to_multiset();
        let ml = m.last().to_multiset();
        assert(wl.insert(m.last()[c]) == ml.insert(v[r - 1]));
        assert forall|e: i8|
            rows_joined(w).to_multiset().add(col_of(m, c, r).to_multiset()).count(e)
                == rows_joined(m).to_multiset().add(v.take(r).to_multiset()).count(e) by {
            assert(ihl.add(ihc).count(e) == ihr.add(ihv).count(e));
            assert(wl.insert(m.last()[c]).count(e) == ml.insert(v[r - 1]).count(e));
            assert(rows_joined(w).to_multiset().add(col_of(m, c, r).to_multiset()).count(e)
                == ihl.count(e) + wl.count(e) + ihc.count(e) + (if m.last()[c] == e {
                1int
            } else {
                0int
            }));
            assert(rows_joined(m).to_multiset().add(v.take(r).to_multiset()).count(e)
                == ihr.count(e) + ml.count(e) + ihv.count(e) + (if v[r - 1] == e {
                1int
            } else {
                0int
            }));
        }
        assert(rows_joined(w).to_multiset().add(col_of(m, c, r).to_multiset())
            =~= rows_joined(m).to_multiset().add(v.take(r).to_multiset()));
    }
}

/// Replacing row `i` of face `f` with `v` trades the old row's values for
/// the new ones in the grid's multiset.
proof fn lemma_step_row(g: Seq<Seq<Seq<i8>>>, f: int, i: int, v: Seq<i8>)
    requires
        0 <= f < g.len(),
        0 <= i < g[f].len(),
    ensures
        grid_ms(g.update(f, g[f].update(i, v))).add(g[f][i].to_multiset()) == grid_ms(g).add(
            v.to_multiset(),
        ),
{
    lemma_grid_update(g, f, g[f].update(i, v));
    assert(g =~= g.update(f, g[f]));
    lemma_grid_update(g, f, g[f]);
    lemma_rows_update(g[f], i, v);
    assert(g[f].update(i, g[f][i]) =~= g[f]);
    lemma_rows_update(g[f], i, g[f][i]);
    assert(grid_ms(g.update(f, g[f].update(i, v))).add(g[f][i].to_multiset()) =~= grid_ms(g).add(
        v.to_multiset(),
    ));
}

/// Replacing column `c` of face `f` with `v` trades the old column's values
/// for the new ones in the grid's multiset.
proof fn lemma_step_col(g: Seq<Seq<Seq<i8>>>, f: int, c: int, v: Seq<i8>)
    requires
        0 <= f < g.len(),
        v.len() >= g[f].len(),
        forall|i: int| 0 <= i < g[f].len() ==> 0 <= c < (#[trigger] g[f][i]).len(),
    ensures
        grid_ms(g.update(f, with_col(g[f], c, v))).add(
            col_of(g[f], c, g[f].len() as int).to_multiset(),
        ) == grid_ms(g).add(v.take(g[f].len() as int).to_multiset()),
{
    lemma_grid_update(g, f, with_col(g[f], c, v));
    assert(g =~= g.update(f, g[f]));
    lemma_grid_update(g, f, g[f]);
    lemma_with_col_ms(g[f], c, v);
    let r = g[f].len() as int;
    let base = grid_cells(g.update(f, Seq::<Seq<i8>>::empty())).to_multiset();
    assert(grid_ms(g.update(f, with_col(g[f], c, v))) == base.add(
        rows_joined(with_col(g[f], c, v)).to_multiset(),
    ));
    assert(grid_ms(g) == base.add(rows_joined(g[f]).to_multiset()));
    assert(rows_joined(with_col(g[f], c, v)).to_multiset().add(col_of(g[f], c, r).to_multiset())
        == rows_joined(g[f]).to_multiset().add(v.take(r).to_multiset()));
    assert forall|e: i8|
        grid_ms(g.update(f, with_col(g[f], c, v))).add(col_of(g[f], c, r).to_multiset()).count(e)
            == grid_ms(g).add(v.take(r).to_multiset()).count(e) by {
        assert(rows_joined(with_col(g[f], c, v)).to_multiset().add(
            col_of(g[f], c, r).to_multiset(),
        ).count(e) == rows_joined(g[f]).to_multiset().add(v.take(r).to_multiset()).count(e));
    }
    assert(grid_ms(g.update(f, with_col(g[f], c, v))).add(col_of(g[f], c, r).to_multiset())
        =~= grid_ms(g).add(v.take(r).to_multiset()));
}

/// The row cycle only trades whole rows around: the grid multiset stays.
proof fn lemma_ud_ms(g: Seq<Seq<Seq<i8>>>, n: int, a: int, b: int, c: int, d: int, row: int)
    requires
        wf_grid(g, n),
        0 <= a < 6 && 0 <= b < 6 && 0 <= c < 6 && 0 <= d < 6,
        a != b && a != c && a != d && b != c && b != d && c != d,
        0 <= row < n,
    ensures
        grid_ms(ud_cycled(g, n, a, b, c, d, row)) == grid_ms(g),
{
    let g1 = g.update(a, g[a].update(row, g[b][row]));
    let g2 = g1.update(b, g[b].update(row, g[c][row]));
    let g3 = g2.update(c, g[c].update(row, g[d][row]));
    let g4 = g3.update(d, g[d].update(row, g[a][row]));
    assert(is_square(g[a], n) && is_square(g[b], n) && is_square(g[c], n) && is_square(g[d], n));
    lemma_step_row(g, a, row, g[b][row]);
    assert(g1[b] == g[b]);
    lemma_step_row(g1, b, row, g[c][row]);
    assert(g2[c] == g[c]);
    lemma_step_row(g2, c, row, g[d][row]);
    assert(g3[d] == g[d]);
    lemma_step_row(g3, d, row, g[a][row]);
    assert(ud_cycled(g, n, a, b, c, d, row) == g4);
    assert forall|e: i8| grid_ms(g4).count(e) == grid_ms(g).count(e) by {
        assert(grid_ms(g1).add(g[a][row].to_multiset()).count(e) == grid_ms(g).add(
            g[b][row].to_multiset(),
        ).count(e));
        assert(grid_ms(g2).add(g[b][row].to_multiset()).count(e) == grid_ms(g1).add(
            g[c][row].to_multiset(),
        ).count(e));
        assert(grid_ms(g3).add(g[c][row].to_multiset()).count(e) == grid_ms(g2).add(
            g[d][row].to_multiset(),
        ).count(e));
        assert(grid_ms(g4).add(g[d][row].to_multiset()).count(e) == grid_ms(g3).add(
            g[a][row].to_multiset(),
        ).count(e));
    }
    assert(grid_ms(g4) =~= grid_ms(g));
}

/// The R/L-axis strip cycle only trades columns around: the grid multiset
/// stays.
proof fn lemma_rl_ms(
    g: Seq<Seq<Seq<i8>>>,
    n: int,
    a: int,
    b: int,
    c: int,
    d: int,
    s0: int,
    s1: int,
)
    requires
        wf_grid(g, n),
        0 <= a < 6 && 0 <= b < 6 && 0 <= c < 6 && 0 <= d < 6,
        a != b && a != c && a != d && b != c && b != d && c != d,
        0 <= s0 < n,
        0 <= s1 < n,
    ensures
        grid_ms(rl_cycled(g, n, a, b, c, d, s0, s1)) == grid_ms(g),
{
    assert(is_square(g[a], n) && is_square(g[b], n) && is_square(g[c], n) && is_square(g[d], n));
    let ca = col_of(g[a], s0, n);
    let cb = col_of(g[b], s0, n);
    let cc = col_of(g[c], s0, n);
    let cd = col_of(g[d], s1, n);
    let g1 = g.update(a, with_col(g[a], s0, cb));
    let g2 = g1.update(b, with_col(g[b], s0, cc));
    let g3 = g2.update(c, with_col(g[c], s0, cd.reverse()));
    let g4 = g3.update(d, with_col(g[d], s1, ca.reverse()));
    lemma_step_col(g, a, s0, cb);
    assert(cb.take(n) =~= cb);
    assert(g1[b] == g[b]);
    lemma_step_col(g1, b, s0, cc);
    assert(cc.take(n) =~= cc);
    assert(g2[c] == g[c]);
    lemma_step_col(g2, c, s0, cd.reverse());
    assert(cd.reverse().take(n) =~= cd.reverse());
    cd.lemma_reverse_to_multiset();
    assert(g3[d] == g[d]);
    lemma_step_col(g3, d, s1, ca.reverse());
    assert(ca.reverse().take(n) =~= ca.reverse());
    ca.lemma_reverse_to_multiset();
    assert(rl_cycled(g, n, a, b, c, d, s0, s1) == g4);
    assert forall|e: i8| grid_ms(g4).count(e) == grid_ms(g).count(e) by {
        assert(grid_ms(g1).add(ca.to_multiset()).count(e) == grid_ms(g).add(
            cb.to_multiset(),
        ).count(e));
        assert(grid_ms(g2).add(cb.to_multiset()).count(e) == grid_ms(g1).add(
            cc.to_multiset(),
        ).count(e));
        assert(grid_ms(g3).add(cc.to_multiset()).count(e) == grid_ms(g2).add(
            cd.reverse().to_multiset(),
        ).count(e));
        assert(cd.reverse().to_multiset().count(e) == cd.to_multiset().count(e));
        assert(grid_ms(g4).add(cd.to_multiset()).count(e) == grid_ms(g3).add(
            ca.reverse().to_multiset(),
        ).count(e));
        assert(ca.reverse().to_multiset().count(e) == ca.to_multiset().count(e));
    }
    assert(grid_ms(g4) =~= grid_ms(g));
}

/// The F/B-axis strip cycle only trades rows and columns around: the grid
/// multiset stays.
proof fn lemma_fb_ms(g: Seq<Seq<Seq<i8>>>, n: int, a: int, b: int, c: int, d: int, l: int)
    requires
        wf_grid(g, n),
        0 <= a < 6 && 0 <= b < 6 && 0 <= c < 6 && 0 <= d < 6,
        a != b && a != c && a != d && b != c && b != d && c != d,
        0 <= l < n,
    ensures
        grid_ms(fb_cycled(g, n, a, b, c, d, l)) == grid_ms(g),
{
    let k = n - 1 - l;
    assert(is_square(g[a], n) && is_square(g[b], n) && is_square(g[c], n) && is_square(g[d], n));
    let ra = g[a][k];
    let cb = col_of(g[b], k, n);
    let rc = g[c][l];
    let cd = col_of(g[d], l, n);
    let g1 = g.update(a, g[a].update(k, cb.reverse()));
    let g2 = g1.update(b, with_col(g[b], k, rc));
    let g3 = g2.update(c, g[c].update(l, cd.reverse()));
    let g4 = g3.update(d, with_col(g[d], l, ra));
    lemma_step_row(g, a, k, cb.reverse());
    cb.lemma_reverse_to_multiset();
    assert(g1[b] == g[b]);
    lemma_step_col(g1, b, k, rc);
    assert(rc.take(n) =~= rc);
    assert(g2[c] == g[c]);
    lemma_step_row(g2, c, l, cd.reverse());
    cd.lemma_reverse_to_multiset();
    assert(g3[d] == g[d]);
    lemma_step_col(g3, d, l, ra);
    assert(ra.take(n) =~= ra);
    assert(fb_cycled(g, n, a, b, c, d, l) == g4);
    assert forall|e: i8| grid_ms(g4).count(e) == grid_ms(g).count(e) by {
        assert(grid_ms(g1).add(ra.to_multiset()).count(e) == grid_ms(g).add(
            cb.reverse().to_multiset(),
        ).count(e));
        assert(cb.reverse().to_multiset().count(e) == cb.to_multiset().count(e));
        assert(grid_ms(g2).add(cb.to_multiset()).count(e) == grid_ms(g1).add(
            rc.to_multiset(),
        ).count(e));
        assert(grid_ms(g3).add(rc.to_multiset()).count(e) == grid_ms(g2).add(
            cd.reverse().to_multiset(),
        ).count(e));
        assert(cd.reverse().to_multiset().count(e) == cd.to_multiset().count(e));
        assert(grid_ms(g4).add(cd.to_multiset()).count(e) == grid_ms(g3).add(
            ra.to_multiset(),
        ).count(e));
    }
    assert(grid_ms(g4) =~= grid_ms(g));
}

/// The mirrored F/B-axis strip cycle keeps the grid multiset too.
proof fn lemma_rev_fb_ms(g: Seq<Seq<Seq<i8>>>, n: int, a: int, b: int, c: int, d: int, l: int)
    requires
        wf_grid(g, n),
        0 <= a < 6 && 0 <= b < 6 && 0 <= c < 6 && 0 <= d < 6,
        a != b && a != c && a != d && b != c && b != d && c != d,
        0 <= l < n,
    ensures
        grid_ms(rev_fb_cycled(g, n, a, b, c, d, l)) == grid_ms(g),
{
    let k = n - 1 - l;
    assert(is_square(g[a], n) && is_square(g[b], n) && is_square(g[c], n) && is_square(g[d], n));
    let rc2 = g[c][k];
    let cb = col_of(g[b], l, n);
    let ra = g[a][l];
    let cd = col_of(g[d], k, n);
    let g1 = g.update(c, g[c].update(k, cb));
    let g2 = g1.update(b, with_col(g[b], l, ra.reverse()));
    let g3 = g2.update(a, g[a].update(l, cd));
    let g4 = g3.update(d, with_col(g[d], k, rc2.reverse()));
    lemma_step_row(g, c, k, cb);
    assert(g1[b] == g[b]);
    lemma_step_col(g1, b, l, ra.reverse());
    assert(ra.reverse().take(n) =~= ra.reverse());
    ra.lemma_reverse_to_multiset();
    assert(g2[a] == g[a]);
    lemma_step_row(g2, a, l, cd);
    assert(g3[d] == g[d]);
    lemma_step_col(g3, d, k, rc2.reverse());
    assert(rc2.reverse().take(n) =~= rc2.reverse());
    rc2.lemma_reverse_to_multiset();
    assert(rev_fb_cycled(g, n, a, b, c, d, l) == g4);
    assert forall|e: i8| grid_ms(g4).count(e) == grid_ms(g).count(e) by {
        assert(grid_ms(g1).add(rc2.to_multiset()).count(e) == grid_ms(g).add(
            cb.to_multiset(),
        ).count(e));
        assert(grid_ms(g2).add(cb.to_multiset()).count(e) == grid_ms(g1).add(
            ra.reverse().to_multiset(),
        ).count(e));
        assert(ra.reverse().to_multiset().count(e) == ra.to_multiset().count(e));
        assert(grid_ms(g3).add(ra.to_multiset()).count(e) == grid_ms(g2).add(
            cd.to_multiset(),
        ).count(e));
        assert(grid_ms(g4).add(cd.to_multiset()).count(e) == grid_ms(g3).add(
            rc2.reverse().to_multiset(),
        ).count(e));
        assert(rc2.reverse().to_multiset().count(e) == rc2.to_multiset().count(e));
    }
    assert(grid_ms(g4) =~= grid_ms(g));
}

proof fn lemma_rows_joined_empties(mm: Seq<Seq<i8>>)
    requires
        forall|j: int| 0 <= j < mm.len() ==> (#[trigger] mm[j]).len() == 0,
    ensures
        rows_joined(mm).len() == 0,
    decreases mm.len(),
{
    if mm.len() > 0 {
        lemma_rows_joined_empties(mm.drop_last());
    }
}

/// Appending one value to every row adds exactly those values to the
/// multiset.
proof fn lemma_push_each_ms(tt: Seq<Seq<i8>>, v: Seq<i8>)
    requires
        tt.len() == v.len(),
    ensures
        rows_joined(Seq::new(tt.len(), |j: int| tt[j].push(v[j]))).to_multiset() == rows_joined(
            tt,
        ).to_multiset().add(v.to_multiset()),
    decreases tt.len(),
{
    let s = Seq::new(tt.len(), |j: int| tt[j].push(v[j]));
    if tt.len() == 0 {
        assert(s =~= Seq::<Seq<i8>>::empty());
        assert(v.to_multiset() =~= Multiset::<i8>::empty());
        assert(rows_joined(s).to_multiset() =~= rows_joined(tt).to_multiset().add(v.to_multiset()));
    } else {
        let ttd = tt.drop_last();
        let vd = v.drop_last();
        let sd = Seq::new(ttd.len(), |j: int| ttd[j].push(vd[j]));
        assert(s.drop_last() =~~= sd);
        assert(s.last() == tt.last().push(v.last()));
        lemma_push_each_ms(ttd, vd);
        lemma_multiset_commutative(rows_joined(sd), s.last());
        lemma_multiset_commutative(rows_joined(ttd), tt.last());
        assert(s.last().to_multiset() == tt.last().to_multiset().insert(v.last()));
        assert(v =~= vd.push(v.last()));
        assert(v.to_multiset() == vd.to_multiset().insert(v.last()));
        assert forall|e: i8|
            rows_joined(s).to_multiset().count(e) == rows_joined(tt).to_multiset().add(
                v.to_multiset(),
            ).count(e) by {
            assert(rows_joined(s).to_multiset().count(e) == rows_joined(sd).to_multiset().count(e)
                + s.last().to_multiset().count(e));
            assert(rows_joined(sd).to_multiset().count(e) == rows_joined(ttd).to_multiset().count(e)
                + vd.to_multiset().count(e));
            assert(rows_joined(tt).to_multiset().count(e) == rows_joined(
                ttd,
            ).to_multiset().count(e) + tt.last().to_multiset().count(e));
        }
        assert(rows_joined(s).to_multiset() =~= rows_joined(tt).to_multiset().add(v.to_multiset()));
    }
}

/// Reading a rectangle by columns gives the same values as reading it by
/// rows.
proof fn lemma_transpose_ms(m: Seq<Seq<i8>>, rows: int, n: int)
    requires
        m.len() == rows,
        0 <= rows,
        0 <= n,
        forall|i: int| 0 <= i < rows ==> (#[trigger] m[i]).len() == n,
    ensures
        rows_joined(Seq::new(n as nat, |j: int| col_of(m, j, rows))).to_multiset() == rows_joined(
            m,
        ).to_multiset(),
    decreases rows,
{
    let t = Seq::new(n as nat, |j: int| col_of(m, j, rows));
    if rows == 0 {
        assert(forall|j: int| 0 <= j < n ==> (#[trigger] t[j]).len() == 0);
        lemma_rows_joined_empties(t);
        assert(rows_joined(t) =~= Seq::<i8>::empty());
        assert(rows_joined(t).to_multiset() =~= rows_joined(m).to_multiset());
    } else {
        let dl = m.drop_last();
        let td = Seq::new(n as nat, |j: int| col_of(dl, j, rows - 1));
        assert(t =~~= Seq::new(n as nat, |j: int| td[j].push(m.last()[j]))) by {
            assert(forall|j: int|
                0 <= j < n ==> #[trigger] col_of(m, j, rows) =~= col_of(dl, j, rows - 1).push(
                    m.last()[j],
                ));
        }
        assert(m.last() =~= Seq::new(n as nat, |j: int| m.last()[j]));
        lemma_push_each_ms(td, Seq::new(n as nat, |j: int| m.last()[j]));
        assert(Seq::new(n as nat, |j: int| m.last()[j]) =~= m.last());
        lemma_transpose_ms(dl, rows - 1, n);
        lemma_multiset_commutative(rows_joined(dl), m.last());
        assert(rows_joined(t).to_multiset() =~= rows_joined(m).to_multiset());
    }
}

/// Reversing every row keeps the multiset.
proof fn lemma_rev_rows_ms(mm: Seq<Seq<i8>>)
    ensures
        rows_joined(Seq::new(mm.len(), |i: int| mm[i].reverse())).to_multiset() == rows_joined(
            mm,
        ).to_multiset(),
    decreases mm.len(),
{
    let s = Seq::new(mm.len(), |i: int| mm[i].reverse());
    if mm.len() == 0 {
        assert(s =~= Seq::<Seq<i8>>::empty());
    } else {
        let dl = mm.drop_last();
        let sd = Seq::new(dl.len(), |i: int| dl[i].reverse());
        assert(s.drop_last() =~~= sd);
        assert(s.last() == mm.last().reverse());
        lemma_rev_rows_ms(dl);
        mm.last().lemma_reverse_to_multiset();
        lemma_multiset_commutative(rows_joined(sd), s.last());
        lemma_multiset_commutative(rows_joined(dl), mm.last());
        assert forall|e: i8|
            rows_joined(s).to_multiset().count(e) == rows_joined(mm).to_multiset().count(e) by {
            assert(rows_joined(s).to_multiset().count(e) == rows_joined(sd).to_multiset().count(e)
                + s.last().to_multiset().count(e));
            assert(rows_joined(mm).to_multiset().count(e) == rows_joined(dl).to_multiset().count(e)
                + mm.last().to_multiset().count(e));
        }
        assert(rows_joined(s).to_multiset() =~= rows_joined(mm).to_multiset());
    }
}

/// A quarter turn of a face's matrix keeps its multiset.
proof fn lemma_rot_cw_ms(m: Seq<Seq<i8>>, n: int)
    requires
        is_square(m, n),
    ensures
        rows_joined(rotated_cw(m, n)).to_multiset() == rows_joined(m).to_multiset(),
{
    let t = Seq::new(n as nat, |j: int| col_of(m, j, n));
    assert(rotated_cw(m, n) =~~= Seq::new(t.len(), |i: int| t[i].reverse())) by {
        assert(forall|i: int|
            0 <= i < n ==> #[trigger] rotated_cw(m, n)[i] =~= t[i].reverse());
    }
    lemma_rev_rows_ms(t);
    lemma_transpose_ms(m, n, n);
}

proof fn lemma_rot_ccw_ms(m: Seq<Seq<i8>>, n: int)
    requires
        is_square(m, n),
    ensures
        rows_joined(rotated_ccw(m, n)).to_multiset() == rows_joined(m).to_multiset(),
{
    // a counter-clockwise turn is three clockwise turns
    let c1 = rotated_cw(m, n);
    assert(is_square(c1, n));
    let c2 = rotated_cw(c1, n);
    assert(is_square(c2, n));
    let c3 = rotated_cw(c2, n);
    lemma_rot_square(m, n);
    lemma_rot_pair(rotated_ccw(m, n), n);
    assert(c3 == rotated_ccw(m, n)) by {
        assert(c2 == rotated_ccw(rotated_ccw(m, n), n));
        assert(rotated_cw(rotated_ccw(rotated_ccw(m, n), n), n) == rotated_ccw(m, n)) by {
            assert(is_square(rotated_ccw(m, n), n));
            lemma_rot_pair(rotated_ccw(m, n), n);
        }
    }
    lemma_rot_cw_ms(m, n);
    lemma_rot_cw_ms(c1, n);
    lemma_rot_cw_ms(c2, n);
}

/// Rotating one face keeps the grid multiset.
proof fn lemma_rot_grid_ms(g: Seq<Seq<Seq<i8>>>, n: int, fi: int, cw: bool)
    requires
        wf_grid(g, n),
        0 <= fi < 6,
    ensures
        grid_ms(with_face_rotated(g, n, fi, cw)) == grid_ms(g),
{
    assert(is_square(g[fi], n));
    let m = if cw {
        rotated_cw(g[fi], n)
    } else {
        rotated_ccw(g[fi], n)
    };
    lemma_grid_update(g, fi, m);
    assert(g =~= g.update(fi, g[fi]));
    lemma_grid_update(g, fi, g[fi]);
    if cw {
        lemma_rot_cw_ms(g[fi], n);
    } else {
        lemma_rot_ccw_ms(g[fi], n);
    }
    assert(grid_ms(with_face_rotated(g, n, fi, cw)) =~= grid_ms(g));
}

/// One layer cycle keeps the grid multiset.
proof fn lemma_cycle_at_ms(g: Seq<Seq<Seq<i8>>>, n: int, face: Face, cw: bool, l: int)
    requires
        wf_grid(g, n),
        0 <= l < n,
    ensures
        grid_ms(cycle_at(g, n, face, cw, l)) == grid_ms(g),
{
    match face {
        Face::R => {
            if cw {
                lemma_rl_ms(g, n, 1, 2, 4, 5, n - 1 - l, l);
            } else {
                lemma_rl_ms(g, n, 4, 2, 1, 5, n - 1 - l, l);
            }
        },
        Face::L => {
            if cw {
                lemma_rl_ms(g, n, 4, 2, 1, 5, l, n - 1 - l);
            } else {
                lemma_rl_ms(g, n, 1, 2, 4, 5, l, n - 1 - l);
            }
        },
        Face::U => {
            if cw {
                lemma_ud_ms(g, n, 0, 5, 3, 2, l);
            } else {
                lemma_ud_ms(g, n, 0, 2, 3, 5, l);
            }
        },
        Face::D => {
            if cw {
                lemma_ud_ms(g, n, 0, 2, 3, 5, n - 1 - l);
            } else {
                lemma_ud_ms(g, n, 0, 5, 3, 2, n - 1 - l);
            }
        },
        Face::F => {
            if cw {
                lemma_fb_ms(g, n, 1, 3, 4, 0, l);
            } else {
                lemma_rev_fb_ms(g, n, 4, 0, 1, 3, l);
            }
        },
        Face::B => {
            if cw {
                lemma_rev_fb_ms(g, n, 1, 3, 4, 0, l);
            } else {
                lemma_fb_ms(g, n, 4, 0, 1, 3, l);
            }
        },
    }
}

proof fn lemma_cb_ms(g: Seq<Seq<Seq<i8>>>, n: int, face: Face, cw: bool, k: int)
    requires
        wf_grid(g, n),
        0 <= k <= n,
    ensures
        grid_ms(cycles_below(g, n, face, cw, k)) == grid_ms(g),
    decreases k,
{
    if k > 0 {
        lemma_cb_ms(g, n, face, cw, k - 1);
        lemma_cb_wf(g, n, face, cw, k - 1);
        lemma_cycle_at_ms(cycles_below(g, n, face, cw, k - 1), n, face, cw, k - 1);
    }
}

proof fn lemma_turn_ms(g: Seq<Seq<Seq<i8>>>, n: int, face: Face, cw: bool, depth: int, wide: bool)
    requires
        wf_grid(g, n),
        0 <= depth < n,
    ensures
        grid_ms(single_turn(g, n, face, cw, depth, wide)) == grid_ms(g),
{
    let fi = face.index_spec();
    lemma_rot_grid_ms(g, n, fi, cw);
    lemma_rot_grid_wf(g, n, fi, cw);
    let r1 = with_face_rotated(g, n, fi, cw);
    lemma_cycle_at_ms(r1, n, face, cw, depth);
    lemma_cycle_at_wf(r1, n, face, cw, depth);
    if wide {
        lemma_cb_ms(cycle_at(r1, n, face, cw, depth), n, face, cw, depth);
    }
}

/// One move keeps the grid multiset.
pub proof fn lemma_move_ms(g: Seq<Seq<Seq<i8>>>, n: int, mv: Move)
    requires
        wf_grid(g, n),
        mv.depth < n,
    ensures
        grid_ms(move_applied(g, n, mv)) == grid_ms(g),
{
    let depth = mv.depth as int;
    match mv.dir {
        Direction::NoTurn => {},
        Direction::Clockwise => {
            lemma_turn_ms(g, n, mv.face, true, depth, mv.wide);
        },
        Direction::CounterClockwise => {
            lemma_turn_ms(g, n, mv.face, false, depth, mv.wide);
        },
        Direction::Half => {
            lemma_turn_ms(g, n, mv.face, true, depth, mv.wide);
            lemma_turn_wf(g, n, mv.face, true, depth, mv.wide);
            lemma_turn_ms(single_turn(g, n, mv.face, true, depth, mv.wide), n, mv.face, true, depth, mv.wide);
        },
    }
}

/// Permutation conservation: no sequence of moves creates or destroys a
/// facelet — the multiset of facelet values of the grid never changes.
pub proof fn lemma_moves_conserve_cells(g: Seq<Seq<Seq<i8>>>, n: int, ms: Seq<Move>)
    requires
        wf_grid(g, n),
        forall|k: int| 0 <= k < ms.len() ==> (#[trigger] ms[k]).depth < n,
    ensures
        grid_ms(moves_applied(g, n, ms)) == grid_ms(g),
    decreases ms.len(),
{
    if ms.len() > 0 {
        lemma_move_ms(g, n, ms[0]);
        lemma_move_wf(g, n, ms[0]);
        assert(forall|k: int|
            0 <= k < ms.drop_first().len() ==> (#[trigger] ms.drop_first()[k]).depth < n);
        lemma_moves_conserve_cells(move_applied(g, n, ms[0]), n, ms.drop_first());
    }
}

proof fn lemma_const_row_count(n: int, x: i8, e: i8)
    requires
        0 <= n,
    ensures
        Seq::new(n as nat, |j: int| x).to_multiset().count(e) == if e == x {
            n
        } else {
            0
        },
    decreases n,
{
    let s = Seq::new(n as nat, |j: int| x);
    if n == 0 {
        assert(s =~= Seq::<i8>::empty());
    } else {
        let d = Seq::new((n - 1) as nat, |j: int| x);
        assert(s =~= d.push(x));
        assert(s.to_multiset() == d.to_multiset().insert(x));
        lemma_const_row_count(n - 1, x, e);
    }
}

proof fn lemma_const_face_count(rows: int, n: int, x: i8, e: i8)
    requires
        0 <= rows,
        0 <= n,
    ensures
        rows_joined(Seq::new(rows as nat, |i: int| Seq::new(n as nat, |j: int| x))).to_multiset().count(e)
            == if e == x {
            rows * n
        } else {
            0
        },
    decreases rows,
{
    let m = Seq::new(rows as nat, |i: int| Seq::new(n as nat, |j: int| x));
    if rows == 0 {
        assert(m =~= Seq::<Seq<i8>>::empty());
    } else {
        let d = Seq::new((rows - 1) as nat, |i: int| Seq::new(n as nat, |j: int| x));
        assert(m.drop_last() =~~= d);
        assert(m.last() =~= Seq::new(n as nat, |j: int| x));
        lemma_multiset_commutative(rows_joined(d), m.last());
        lemma_const_face_count(rows - 1, n, x, e);
        lemma_const_row_count(n, x, e);
        assert(rows_joined(m).to_multiset().count(e) == rows_joined(d).to_multiset().count(e)
            + m.last().to_multiset().count(e));
        assert((rows - 1) * n + n == rows * n) by (nonlinear_arith);
    }
}

/// On a fresh cube of order `n`, every facelet value occupies exactly
/// `n * n` cells.
pub proof fn lemma_solved_counts(n: int, v: i8)
    requires
        0 <= n,
        0 <= v < 6,
    ensures
        grid_ms(solved_grid(n)).count(v) == n * n,
{
    let g = solved_grid(n);
    assert(g.len() == 6);
    assert forall|f: int| 0 <= f < 6 implies rows_joined(#[trigger] g[f]).to_multiset().count(v)
        == (if v == f {
        n * n
    } else {
        0
    }) by {
        assert(g[f] =~~= Seq::new(n as nat, |i: int| Seq::new(n as nat, |j: int| f as i8)));
        lemma_const_face_count(n, n, f as i8, v);
    }
    assert(grid_cells(g).to_multiset().count(v) == n * n) by {
        let g5 = g.drop_last();
        let g4 = g5.drop_last();
        let g3 = g4.drop_last();
        let g2 = g3.drop_last();
        let g1 = g2.drop_last();
        let g0 = g1.drop_last();
        assert(g0 =~~= Seq::<Seq<Seq<i8>>>::empty());
        lemma_multiset_commutative(grid_cells(g0), rows_joined(g1.last()));
        lemma_multiset_commutative(grid_cells(g1), rows_joined(g2.last()));
        lemma_multiset_commutative(grid_cells(g2), rows_joined(g3.last()));
        lemma_multiset_commutative(grid_cells(g3), rows_joined(g4.last()));
        lemma_multiset_commutative(grid_cells(g4), rows_joined(g5.last()));
        lemma_multiset_commutative(grid_cells(g5), rows_joined(g.last()));
        assert(g1.last() == g[0] && g2.last() == g[1] && g3.last() == g[2] && g4.last() == g[3]
            && g5.last() == g[4] && g.last() == g[5]);
    }
}

/// Every move that a scramble parses to names a layer the cube has.
proof fn lemma_parse_all_depths(ts: Seq<Seq<u8>>, size: int)
    requires
        parse_all(ts, size) is Ok,
    ensures
        forall|k: int|
            0 <= k < parse_all(ts, size)->Ok_0.len() ==> (#[trigger] parse_all(
                ts,
                size,
            )->Ok_0[k]).depth < size,
    decreases ts.len(),
{
    if ts.len() > 0 {
        lemma_parse_all_depths(ts.drop_first(), size);
    }
}

/// Permutation conservation for whole scrambles: a scramble that applies
/// leaves the multiset of facelet values unchanged.
pub proof fn lemma_scramble_conserves_cells(g: Seq<Seq<Seq<i8>>>, n: int, bytes: Seq<u8>)
    requires
        wf_grid(g, n),
        scramble_applied(g, n, bytes) is Ok,
    ensures
        grid_ms(scramble_applied(g, n, bytes)->Ok_0) == grid_ms(g),
{
    let ms = parse_all(tokens_of(bytes), n)->Ok_0;
    lemma_parse_all_depths(tokens_of(bytes), n);
    lemma_moves_conserve_cells(g, n, ms);
}

/// Permutation conservation from the solved cube: after any sequence of
/// moves, every facelet value still occupies exactly `n * n` cells.
pub proof fn lemma_scramble_conserves_counts(n: int, ms: Seq<Move>, v: i8)
    requires
        2 <= n,
        0 <= v < 6,
        forall|k: int| 0 <= k < ms.len() ==> (#[trigger] ms[k]).depth < n,
    ensures
        grid_ms(moves_applied(solved_grid(n), n, ms)).count(v) == n * n,
{
    assert(wf_grid(solved_grid(n), n)) by {
        assert(forall|f: int| 0 <= f < 6 ==> is_square(#[trigger] solved_grid(n)[f], n));
    }
    lemma_moves_conserve_cells(solved_grid(n), n, ms);
    lemma_solved_counts(n, v);
}

} // verus!
