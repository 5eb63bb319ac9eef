//! The group-theoretic laws of the move engine, proved once and for all
//! sizes: an empty scramble changes nothing, every turn has an inverse, a
//! half turn is two quarter turns, and four quarter turns are the identity.

use vstd::prelude::*;

verus! {

use crate::cube_puzzle::{
    cycle_at,
    cycles_below,
    fb_cycled,
    move_applied,
    moves_applied,
    parse_all,
    rev_fb_cycled,
    rl_cycled,
    scramble_applied,
    single_turn,
    ud_cycled,
    wf_grid,
    with_face_rotated,
};
use crate::puzzles::cube::{Direction, Face, Move, ScrambleError, is_ws_byte, tokens_of};
use crate::rotations::{is_square, rotated_ccw, rotated_cw};

/// A quarter turn one way then the other leaves a face's matrix unchanged.
pub(crate) proof fn lemma_rot_pair(m: Seq<Seq<i8>>, n: int)
    requires
        is_square(m, n),
    ensures
        rotated_ccw(rotated_cw(m, n), n) == m,
        rotated_cw(rotated_ccw(m, n), n) == m,
{
    assert(rotated_ccw(rotated_cw(m, n), n) =~~= m);
    assert(rotated_cw(rotated_ccw(m, n), n) =~~= m);
}

/// Two quarter turns of a face's matrix reach the same half turn either way
/// round.
pub(crate) proof fn lemma_rot_square(m: Seq<Seq<i8>>, n: int)
    requires
        is_square(m, n),
    ensures
        rotated_cw(rotated_cw(m, n), n) == rotated_ccw(rotated_ccw(m, n), n),
{
    assert(rotated_cw(rotated_cw(m, n), n) =~~= rotated_ccw(rotated_ccw(m, n), n));
}

/// The R/L-axis strip cycle undone by the cycle with the ring reversed.
proof fn lemma_rl_pair(
    g: Seq<Seq<Seq<i8>>>,
    n: int,
    a: int,
    b: int,
    c: int,
    d: int,
    s0: int,
    s1: int,
)
    requires
        wf_grid(g, n),
        0 <= a < 6 && 0 <= b < 6 && 0 <= c < 6 && 0 <= d < 6,
        a != b && a != c && a != d && b != c && b != d && c != d,
        0 <= s0 < n,
        0 <= s1 < n,
    ensures
        rl_cycled(rl_cycled(g, n, a, b, c, d, s0, s1), n, c, b, a, d, s0, s1) == g,
{
    assert(rl_cycled(rl_cycled(g, n, a, b, c, d, s0, s1), n, c, b, a, d, s0, s1) =~~= g);
}

/// Two R/L-axis strip cycles reach the same position along either ring
/// direction.
proof fn lemma_rl_square(
    g: Seq<Seq<Seq<i8>>>,
    n: int,
    a: int,
    b: int,
    c: int,
    d: int,
    s0: int,
    s1: int,
)
    requires
        wf_grid(g, n),
        0 <= a < 6 && 0 <= b < 6 && 0 <= c < 6 && 0 <= d < 6,
        a != b && a != c && a != d && b != c && b != d && c != d,
        0 <= s0 < n,
        0 <= s1 < n,
    ensures
        rl_cycled(rl_cycled(g, n, a, b, c, d, s0, s1), n, a, b, c, d, s0, s1) == rl_cycled(
            rl_cycled(g, n, c, b, a, d, s0, s1),
            n,
            c,
            b,
            a,
            d,
            s0,
            s1,
        ),
{
    assert(rl_cycled(rl_cycled(g, n, a, b, c, d, s0, s1), n, a, b, c, d, s0, s1) =~~= rl_cycled(
        rl_cycled(g, n, c, b, a, d, s0, s1),
        n,
        c,
        b,
        a,
        d,
        s0,
        s1,
    ));
}

/// The U/D-axis row cycle undone by the cycle with the ring reversed.
proof fn lemma_ud_pair(g: Seq<Seq<Seq<i8>>>, n: int, a: int, b: int, c: int, d: int, row: int)
    requires
        wf_grid(g, n),
        0 <= a < 6 && 0 <= b < 6 && 0 <= c < 6 && 0 <= d < 6,
        a != b && a != c && a != d && b != c && b != d && c != d,
        0 <= row < n,
    ensures
        ud_cycled(ud_cycled(g, n, a, b, c, d, row), n, d, c, b, a, row) == g,
{
    assert(ud_cycled(ud_cycled(g, n, a, b, c, d, row), n, d, c, b, a, row) =~~= g);
}

/// A rotation of the ring tuple names the same row cycle.
proof fn lemma_ud_rot(g: Seq<Seq<Seq<i8>>>, n: int, a: int, b: int, c: int, d: int, row: int)
    requires
        wf_grid(g, n),
        0 <= a < 6 && 0 <= b < 6 && 0 <= c < 6 && 0 <= d < 6,
        a != b && a != c && a != d && b != c && b != d && c != d,
        0 <= row < n,
    ensures
        ud_cycled(g, n, a, b, c, d, row) == ud_cycled(g, n, d, a, b, c, row),
{
    assert(ud_cycled(g, n, a, b, c, d, row) =~~= ud_cycled(g, n, d, a, b, c, row));
}

/// Two U/D-axis row cycles reach the same position along either ring
/// direction.
proof fn lemma_ud_square(g: Seq<Seq<Seq<i8>>>, n: int, a: int, b: int, c: int, d: int, row: int)
    requires
        wf_grid(g, n),
        0 <= a < 6 && 0 <= b < 6 && 0 <= c < 6 && 0 <= d < 6,
        a != b && a != c && a != d && b != c && b != d && c != d,
        0 <= row < n,
    ensures
        ud_cycled(ud_cycled(g, n, a, b, c, d, row), n, a, b, c, d, row) == ud_cycled(
            ud_cycled(g, n, a, d, c, b, row),
            n,
            a,
            d,
            c,
            b,
            row,
        ),
{
    assert(ud_cycled(ud_cycled(g, n, a, b, c, d, row), n, a, b, c, d, row) =~~= ud_cycled(
        ud_cycled(g, n, a, d, c, b, row),
        n,
        a,
        d,
        c,
        b,
        row,
    ));
}

/// The F/B-axis strip cycle undone by its mirrored form on the shifted ring.
proof fn lemma_fb_pair(g: Seq<Seq<Seq<i8>>>, n: int, a: int, b: int, c: int, d: int, l: int)
    requires
        wf_grid(g, n),
        0 <= a < 6 && 0 <= b < 6 && 0 <= c < 6 && 0 <= d < 6,
        a != b && a != c && a != d && b != c && b != d && c != d,
        0 <= l < n,
    ensures
        rev_fb_cycled(fb_cycled(g, n, a, b, c, d, l), n, c, d, a, b, l) == g,
{
    assert(rev_fb_cycled(fb_cycled(g, n, a, b, c, d, l), n, c, d, a, b, l) =~~= g);
}

/// The mirrored F/B-axis strip cycle undone by the plain form on the
/// shifted ring.
proof fn lemma_fb_pair2(g: Seq<Seq<Seq<i8>>>, n: int, a: int, b: int, c: int, d: int, l: int)
    requires
        wf_grid(g, n),
        0 <= a < 6 && 0 <= b < 6 && 0 <= c < 6 && 0 <= d < 6,
        a != b && a != c && a != d && b != c && b != d && c != d,
        0 <= l < n,
    ensures
        fb_cycled(rev_fb_cycled(g, n, a, b, c, d, l), n, c, d, a, b, l) == g,
{
    assert(fb_cycled(rev_fb_cycled(g, n, a, b, c, d, l), n, c, d, a, b, l) =~~= g);
}

/// Two F/B-axis strip cycles reach the same position in either mirrored
/// form.
proof fn lemma_fb_square(g: Seq<Seq<Seq<i8>>>, n: int, a: int, b: int, c: int, d: int, l: int)
    requires
        wf_grid(g, n),
        0 <= a < 6 && 0 <= b < 6 && 0 <= c < 6 && 0 <= d < 6,
        a != b && a != c && a != d && b != c && b != d && c != d,
        0 <= l < n,
    ensures
        fb_cycled(fb_cycled(g, n, a, b, c, d, l), n, a, b, c, d, l) == rev_fb_cycled(
            rev_fb_cycled(g, n, c, d, a, b, l),
            n,
            c,
            d,
            a,
            b,
            l,
        ),
{
    assert(fb_cycled(fb_cycled(g, n, a, b, c, d, l), n, a, b, c, d, l) =~~= rev_fb_cycled(
        rev_fb_cycled(g, n, c, d, a, b, l),
        n,
        c,
        d,
        a,
        b,
        l,
    ));
}

/// Every strip cycle and face rotation keeps the grid well-shaped.
pub proof fn lemma_cycle_at_wf(g: Seq<Seq<Seq<i8>>>, n: int, face: Face, cw: bool, l: int)
    requires
        wf_grid(g, n),
        0 <= l < n,
    ensures
        wf_grid(cycle_at(g, n, face, cw, l), n),
{
    assert(forall|f: int|
        0 <= f < 6 ==> is_square(#[trigger] cycle_at(g, n, face, cw, l)[f], n));
}

/// Rotating one face's matrix keeps the grid well-shaped.
pub proof fn lemma_rot_grid_wf(g: Seq<Seq<Seq<i8>>>, n: int, fi: int, cw: bool)
    requires
        wf_grid(g, n),
        0 <= fi < 6,
    ensures
        wf_grid(with_face_rotated(g, n, fi, cw), n),
{
    assert(forall|f: int|
        0 <= f < 6 ==> is_square(#[trigger] with_face_rotated(g, n, fi, cw)[f], n));
}

/// A turn then its opposite turn of the same face and layer cancel.
pub proof fn lemma_cycle_pair(g: Seq<Seq<Seq<i8>>>, n: int, face: Face, cw: bool, l: int)
    requires
        wf_grid(g, n),
        0 <= l < n,
    ensures
        cycle_at(cycle_at(g, n, face, cw, l), n, face, !cw, l) == g,
{
    let h = cycle_at(g, n, face, cw, l);
    lemma_cycle_at_wf(g, n, face, cw, l);
    match face {
        Face::R => {
            if cw {
                lemma_rl_pair(g, n, 1, 2, 4, 5, n - 1 - l, l);
            } else {
                lemma_rl_pair(g, n, 4, 2, 1, 5, n - 1 - l, l);
            }
        },
        Face::L => {
            if cw {
                lemma_rl_pair(g, n, 4, 2, 1, 5, l, n - 1 - l);
            } else {
                lemma_rl_pair(g, n, 1, 2, 4, 5, l, n - 1 - l);
            }
        },
        Face::U => {
            if cw {
                lemma_ud_pair(g, n, 0, 5, 3, 2, l);
                lemma_ud_rot(h, n, 2, 3, 5, 0, l);
            } else {
                lemma_ud_pair(g, n, 0, 2, 3, 5, l);
                lemma_ud_rot(h, n, 5, 3, 2, 0, l);
            }
        },
        Face::D => {
            if cw {
                lemma_ud_pair(g, n, 0, 2, 3, 5, n - 1 - l);
                lemma_ud_rot(h, n, 5, 3, 2, 0, n - 1 - l);
            } else {
                lemma_ud_pair(g, n, 0, 5, 3, 2, n - 1 - l);
                lemma_ud_rot(h, n, 2, 3, 5, 0, n - 1 - l);
            }
        },
        Face::F => {
            if cw {
                lemma_fb_pair(g, n, 1, 3, 4, 0, l);
            } else {
                lemma_fb_pair2(g, n, 4, 0, 1, 3, l);
            }
        },
        Face::B => {
            if cw {
                lemma_fb_pair2(g, n, 1, 3, 4, 0, l);
            } else {
                lemma_fb_pair(g, n, 4, 0, 1, 3, l);
            }
        },
    }
}

/// Two same-direction turns of a layer reach the same position whichever
/// direction is doubled.
pub proof fn lemma_cycle_square(g: Seq<Seq<Seq<i8>>>, n: int, face: Face, l: int)
    requires
        wf_grid(g, n),
        0 <= l < n,
    ensures
        cycle_at(cycle_at(g, n, face, true, l), n, face, true, l) == cycle_at(
            cycle_at(g, n, face, false, l),
            n,
            face,
            false,
            l,
        ),
{
    match face {
        Face::R => {
            lemma_rl_square(g, n, 1, 2, 4, 5, n - 1 - l, l);
        },
        Face::L => {
            lemma_rl_square(g, n, 4, 2, 1, 5, l, n - 1 - l);
        },
        Face::U => {
            lemma_ud_square(g, n, 0, 5, 3, 2, l);
        },
        Face::D => {
            lemma_ud_square(g, n, 0, 2, 3, 5, n - 1 - l);
        },
        Face::F => {
            lemma_fb_square(g, n, 1, 3, 4, 0, l);
        },
        Face::B => {
            lemma_fb_square(g, n, 4, 0, 1, 3, l);
        },
    }
}

proof fn lemma_rot_rl_commute(
    g: Seq<Seq<Seq<i8>>>,
    n: int,
    fi: int,
    cw: bool,
    a: int,
    b: int,
    c: int,
    d: int,
    s0: int,
    s1: int,
)
    requires
        wf_grid(g, n),
        0 <= fi < 6,
        0 <= a < 6 && 0 <= b < 6 && 0 <= c < 6 && 0 <= d < 6,
        a != b && a != c && a != d && b != c && b != d && c != d,
        fi != a && fi != b && fi != c && fi != d,
        0 <= s0 < n,
        0 <= s1 < n,
    ensures
        rl_cycled(with_face_rotated(g, n, fi, cw), n, a, b, c, d, s0, s1) == with_face_rotated(
            rl_cycled(g, n, a, b, c, d, s0, s1),
            n,
            fi,
            cw,
        ),
{
    assert(rl_cycled(with_face_rotated(g, n, fi, cw), n, a, b, c, d, s0, s1) =~~= with_face_rotated(
        rl_cycled(g, n, a, b, c, d, s0, s1),
        n,
        fi,
        cw,
    ));
}

proof fn lemma_rot_ud_commute(
    g: Seq<Seq<Seq<i8>>>,
    n: int,
    fi: int,
    cw: bool,
    a: int,
    b: int,
    c: int,
    d: int,
    row: int,
)
    requires
        wf_grid(g, n),
        0 <= fi < 6,
        0 <= a < 6 && 0 <= b < 6 && 0 <= c < 6 && 0 <= d < 6,
        a != b && a != c && a != d && b != c && b != d && c != d,
        fi != a && fi != b && fi != c && fi != d,
        0 <= row < n,
    ensures
        ud_cycled(with_face_rotated(g, n, fi, cw), n, a, b, c, d, row) == with_face_rotated(
            ud_cycled(g, n, a, b, c, d, row),
            n,
            fi,
            cw,
        ),
{
    assert(ud_cycled(with_face_rotated(g, n, fi, cw), n, a, b, c, d, row) =~~= with_face_rotated(
        ud_cycled(g, n, a, b, c, d, row),
        n,
        fi,
        cw,
    ));
}

proof fn lemma_rot_fb_commute(
    g: Seq<Seq<Seq<i8>>>,
    n: int,
    fi: int,
    cw: bool,
    a: int,
    b: int,
    c: int,
    d: int,
    l: int,
)
    requires
        wf_grid(g, n),
        0 <= fi < 6,
        0 <= a < 6 && 0 <= b < 6 && 0 <= c < 6 && 0 <= d < 6,
        a != b && a != c && a != d && b != c && b != d && c != d,
        fi != a && fi != b && fi != c && fi != d,
        0 <= l < n,
    ensures
        fb_cycled(with_face_rotated(g, n, fi, cw), n, a, b, c, d, l) == with_face_rotated(
            fb_cycled(g, n, a, b, c, d, l),
            n,
            fi,
            cw,
        ),
        rev_fb_cycled(with_face_rotated(g, n, fi, cw), n, a, b, c, d, l) == with_face_rotated(
            rev_fb_cycled(g, n, a, b, c, d, l),
            n,
            fi,
            cw,
        ),
{
    assert(fb_cycled(with_face_rotated(g, n, fi, cw), n, a, b, c, d, l) =~~= with_face_rotated(
        fb_cycled(g, n, a, b, c, d, l),
        n,
        fi,
        cw,
    ));
    assert(rev_fb_cycled(with_face_rotated(g, n, fi, cw), n, a, b, c, d, l) =~~= with_face_rotated(
        rev_fb_cycled(g, n, a, b, c, d, l),
        n,
        fi,
        cw,
    ));
}

/// Turning one layer's strips and rotating the turning face's own matrix
/// act on disjoint facelets, in either order.
pub proof fn lemma_rot_cycle_commute(
    g: Seq<Seq<Seq<i8>>>,
    n: int,
    face: Face,
    cw_rot: bool,
    cw_cyc: bool,
    l: int,
)
    requires
        wf_grid(g, n),
        0 <= l < n,
    ensures
        cycle_at(with_face_rotated(g, n, face.index_spec(), cw_rot), n, face, cw_cyc, l)
            == with_face_rotated(cycle_at(g, n, face, cw_cyc, l), n, face.index_spec(), cw_rot),
{
    let fi = face.index_spec();
    match face {
        Face::R => {
            if cw_cyc {
                lemma_rot_rl_commute(g, n, fi, cw_rot, 1, 2, 4, 5, n - 1 - l, l);
            } else {
                lemma_rot_rl_commute(g, n, fi, cw_rot, 4, 2, 1, 5, n - 1 - l, l);
            }
        },
        Face::L => {
            if cw_cyc {
                lemma_rot_rl_commute(g, n, fi, cw_rot, 4, 2, 1, 5, l, n - 1 - l);
            } else {
                lemma_rot_rl_commute(g, n, fi, cw_rot, 1, 2, 4, 5, l, n - 1 - l);
            }
        },
        Face::U => {
            if cw_cyc {
                lemma_rot_ud_commute(g, n, fi, cw_rot, 0, 5, 3, 2, l);
            } else {
                lemma_rot_ud_commute(g, n, fi, cw_rot, 0, 2, 3, 5, l);
            }
        },
        Face::D => {
            if cw_cyc {
                lemma_rot_ud_commute(g, n, fi, cw_rot, 0, 2, 3, 5, n - 1 - l);
            } else {
                lemma_rot_ud_commute(g, n, fi, cw_rot, 0, 5, 3, 2, n - 1 - l);
            }
        },
        Face::F => {
            if cw_cyc {
                lemma_rot_fb_commute(g, n, fi, cw_rot, 1, 3, 4, 0, l);
            } else {
                lemma_rot_fb_commute(g, n, fi, cw_rot, 4, 0, 1, 3, l);
            }
        },
        Face::B => {
            if cw_cyc {
                lemma_rot_fb_commute(g, n, fi, cw_rot, 1, 3, 4, 0, l);
            } else {
                lemma_rot_fb_commute(g, n, fi, cw_rot, 4, 0, 1, 3, l);
            }
        },
    }
}

proof fn lemma_rl_rl_commute(
    g: Seq<Seq<Seq<i8>>>,
    n: int,
    a: int,
    b: int,
    c: int,
    d: int,
    a2: int,
    b2: int,
    c2: int,
    d2: int,
    s0: int,
    s1: int,
    t0: int,
    t1: int,
)
    requires
        wf_grid(g, n),
        0 <= a < 6 && 0 <= b < 6 && 0 <= c < 6 && 0 <= d < 6,
        a != b && a != c && a != d && b != c && b != d && c != d,
        a2 != b2 && a2 != c2 && a2 != d2 && b2 != c2 && b2 != d2 && c2 != d2,
        d2 == d,
        (a2 == a || a2 == b || a2 == c),
        (b2 == a || b2 == b || b2 == c),
        (c2 == a || c2 == b || c2 == c),
        0 <= s0 < n && 0 <= s1 < n && 0 <= t0 < n && 0 <= t1 < n,
        s0 != t0,
        s1 != t1,
    ensures
        rl_cycled(rl_cycled(g, n, a, b, c, d, s0, s1), n, a2, b2, c2, d2, t0, t1) == rl_cycled(
            rl_cycled(g, n, a2, b2, c2, d2, t0, t1),
            n,
            a,
            b,
            c,
            d,
            s0,
            s1,
        ),
{
    assert(rl_cycled(rl_cycled(g, n, a, b, c, d, s0, s1), n, a2, b2, c2, d2, t0, t1) =~~= rl_cycled(
        rl_cycled(g, n, a2, b2, c2, d2, t0, t1),
        n,
        a,
        b,
        c,
        d,
        s0,
        s1,
    ));
}

#[verifier::rlimit(100)]
#[verifier::spinoff_prover]
proof fn lemma_ud_ud_commute(
    g: Seq<Seq<Seq<i8>>>,
    n: int,
    a: int,
    b: int,
    c: int,
    d: int,
    a2: int,
    b2: int,
    c2: int,
    d2: int,
    r1: int,
    r2: int,
)
    requires
        wf_grid(g, n),
        0 <= a < 6 && 0 <= b < 6 && 0 <= c < 6 && 0 <= d < 6,
        0 <= a2 < 6 && 0 <= b2 < 6 && 0 <= c2 < 6 && 0 <= d2 < 6,
        a != b && a != c && a != d && b != c && b != d && c != d,
        a2 != b2 && a2 != c2 && a2 != d2 && b2 != c2 && b2 != d2 && c2 != d2,
        (a2 == a || a2 == b || a2 == c || a2 == d),
        (b2 == a || b2 == b || b2 == c || b2 == d),
        (c2 == a || c2 == b || c2 == c || c2 == d),
        (d2 == a || d2 == b || d2 == c || d2 == d),
        0 <= r1 < n && 0 <= r2 < n,
        r1 != r2,
    ensures
        ud_cycled(ud_cycled(g, n, a, b, c, d, r1), n, a2, b2, c2, d2, r2) == ud_cycled(
            ud_cycled(g, n, a2, b2, c2, d2, r2),
            n,
            a,
            b,
            c,
            d,
            r1,
        ),
{
    assert(ud_cycled(ud_cycled(g, n, a, b, c, d, r1), n, a2, b2, c2, d2, r2) =~~= ud_cycled(
        ud_cycled(g, n, a2, b2, c2, d2, r2),
        n,
        a,
        b,
        c,
        d,
        r1,
    ));
}

proof fn lemma_fb_fb_commute(
    g: Seq<Seq<Seq<i8>>>,
    n: int,
    a: int,
    b: int,
    c: int,
    d: int,
    l1: int,
    l2: int,
)
    requires
        wf_grid(g, n),
        0 <= a < 6 && 0 <= b < 6 && 0 <= c < 6 && 0 <= d < 6,
        a != b && a != c && a != d && b != c && b != d && c != d,
        0 <= l1 < n && 0 <= l2 < n,
        l1 != l2,
    ensures
        fb_cycled(fb_cycled(g, n, a, b, c, d, l1), n, a, b, c, d, l2) == fb_cycled(
            fb_cycled(g, n, a, b, c, d, l2),
            n,
            a,
            b,
            c,
            d,
            l1,
        ),
        rev_fb_cycled(rev_fb_cycled(g, n, a, b, c, d, l1), n, a, b, c, d, l2) == rev_fb_cycled(
            rev_fb_cycled(g, n, a, b, c, d, l2),
            n,
            a,
            b,
            c,
            d,
            l1,
        ),
{
    assert(fb_cycled(fb_cycled(g, n, a, b, c, d, l1), n, a, b, c, d, l2) =~~= fb_cycled(
        fb_cycled(g, n, a, b, c, d, l2),
        n,
        a,
        b,
        c,
        d,
        l1,
    ));
    assert(rev_fb_cycled(rev_fb_cycled(g, n, a, b, c, d, l1), n, a, b, c, d, l2) =~~= rev_fb_cycled(
        rev_fb_cycled(g, n, a, b, c, d, l2),
        n,
        a,
        b,
        c,
        d,
        l1,
    ));
}

proof fn lemma_fb_rev_commute(
    g: Seq<Seq<Seq<i8>>>,
    n: int,
    a: int,
    b: int,
    c: int,
    d: int,
    l1: int,
    l2: int,
)
    requires
        wf_grid(g, n),
        0 <= a < 6 && 0 <= b < 6 && 0 <= c < 6 && 0 <= d < 6,
        a != b && a != c && a != d && b != c && b != d && c != d,
        0 <= l1 < n && 0 <= l2 < n,
        l1 != l2,
    ensures
        rev_fb_cycled(fb_cycled(g, n, a, b, c, d, l1), n, c, d, a, b, l2) == fb_cycled(
            rev_fb_cycled(g, n, c, d, a, b, l2),
            n,
            a,
            b,
            c,
            d,
            l1,
        ),
{
    assert(rev_fb_cycled(fb_cycled(g, n, a, b, c, d, l1), n, c, d, a, b, l2) =~~= fb_cycled(
        rev_fb_cycled(g, n, c, d, a, b, l2),
        n,
        a,
        b,
        c,
        d,
        l1,
    ));
}

/// Strip cycles of the same face at two different layers act on disjoint
/// facelets, in either order.
pub proof fn lemma_cycle_cycle_commute(
    g: Seq<Seq<Seq<i8>>>,
    n: int,
    face: Face,
    cw1: bool,
    cw2: bool,
    l1: int,
    l2: int,
)
    requires
        wf_grid(g, n),
        0 <= l1 < n,
        0 <= l2 < n,
        l1 != l2,
    ensures
        cycle_at(cycle_at(g, n, face, cw2, l2), n, face, cw1, l1) == cycle_at(
            cycle_at(g, n, face, cw1, l1),
            n,
            face,
            cw2,
            l2,
        ),
{
    match face {
        Face::R => {
            let (a, b, c, d) = if cw1 {
                (1int, 2int, 4int, 5int)
            } else {
                (4int, 2int, 1int, 5int)
            };
            let (a2, b2, c2, d2) = if cw2 {
                (1int, 2int, 4int, 5int)
            } else {
                (4int, 2int, 1int, 5int)
            };
            lemma_rl_rl_commute(
                g,
                n,
                a,
                b,
                c,
                d,
                a2,
                b2,
                c2,
                d2,
                n - 1 - l1,
                l1,
                n - 1 - l2,
                l2,
            );
        },
        Face::L => {
            let (a, b, c, d) = if cw1 {
                (4int, 2int, 1int, 5int)
            } else {
                (1int, 2int, 4int, 5int)
            };
            let (a2, b2, c2, d2) = if cw2 {
                (4int, 2int, 1int, 5int)
            } else {
                (1int, 2int, 4int, 5int)
            };
            lemma_rl_rl_commute(g, n, a, b, c, d, a2, b2, c2, d2, l1, n - 1 - l1, l2, n - 1 - l2);
        },
        Face::U => {
            let (a, b, c, d) = if cw1 {
                (0int, 5int, 3int, 2int)
            } else {
                (0int, 2int, 3int, 5int)
            };
            let (a2, b2, c2, d2) = if cw2 {
                (0int, 5int, 3int, 2int)
            } else {
                (0int, 2int, 3int, 5int)
            };
            lemma_ud_ud_commute(g, n, a, b, c, d, a2, b2, c2, d2, l1, l2);
        },
        Face::D => {
            let (a, b, c, d) = if cw1 {
                (0int, 2int, 3int, 5int)
            } else {
                (0int, 5int, 3int, 2int)
            };
            let (a2, b2, c2, d2) = if cw2 {
                (0int, 2int, 3int, 5int)
            } else {
                (0int, 5int, 3int, 2int)
            };
            lemma_ud_ud_commute(g, n, a, b, c, d, a2, b2, c2, d2, n - 1 - l1, n - 1 - l2);
        },
        Face::F => {
            if cw1 == cw2 {
                if cw1 {
                    lemma_fb_fb_commute(g, n, 1, 3, 4, 0, l1, l2);
                } else {
                    lemma_fb_fb_commute(g, n, 4, 0, 1, 3, l1, l2);
                }
            } else {
                if cw1 {
                    // first op rev at l2, second plain at l1
                    lemma_fb_rev_commute(g, n, 1, 3, 4, 0, l1, l2);
                } else {
                    lemma_fb_rev_commute(g, n, 1, 3, 4, 0, l2, l1);
                }
            }
        },
        Face::B => {
            if cw1 == cw2 {
                if cw1 {
                    lemma_fb_fb_commute(g, n, 1, 3, 4, 0, l1, l2);
                } else {
                    lemma_fb_fb_commute(g, n, 4, 0, 1, 3, l1, l2);
                }
            } else {
                if cw1 {
                    // cw1 is the mirrored op, cw2 the plain one
                    lemma_fb_rev_commute(g, n, 4, 0, 1, 3, l2, l1);
                } else {
                    lemma_fb_rev_commute(g, n, 4, 0, 1, 3, l1, l2);
                }
            }
        },
    }
}

/// The inner-layer cycles of a wide move keep the grid well-shaped.
pub proof fn lemma_cb_wf(g: Seq<Seq<Seq<i8>>>, n: int, face: Face, cw: bool, k: int)
    requires
        wf_grid(g, n),
        0 <= k <= n,
    ensures
        wf_grid(cycles_below(g, n, face, cw, k), n),
    decreases k,
{
    if k > 0 {
        lemma_cb_wf(g, n, face, cw, k - 1);
        lemma_cycle_at_wf(cycles_below(g, n, face, cw, k - 1), n, face, cw, k - 1);
    }
}

/// A whole turn keeps the grid well-shaped.
pub proof fn lemma_turn_wf(
    g: Seq<Seq<Seq<i8>>>,
    n: int,
    face: Face,
    cw: bool,
    depth: int,
    wide: bool,
)
    requires
        wf_grid(g, n),
        0 <= depth < n,
    ensures
        wf_grid(single_turn(g, n, face, cw, depth, wide), n),
{
    let fi = face.index_spec();
    lemma_rot_grid_wf(g, n, fi, cw);
    let r1 = with_face_rotated(g, n, fi, cw);
    lemma_cycle_at_wf(r1, n, face, cw, depth);
    if wide {
        lemma_cb_wf(cycle_at(r1, n, face, cw, depth), n, face, cw, depth);
    }
}

/// Rotating the turning face commutes with all its inner-layer cycles.
proof fn lemma_rot_cb_commute(
    g: Seq<Seq<Seq<i8>>>,
    n: int,
    face: Face,
    cw_rot: bool,
    cw_cyc: bool,
    k: int,
)
    requires
        wf_grid(g, n),
        0 <= k <= n,
    ensures
        cycles_below(with_face_rotated(g, n, face.index_spec(), cw_rot), n, face, cw_cyc, k)
            == with_face_rotated(cycles_below(g, n, face, cw_cyc, k), n, face.index_spec(), cw_rot),
    decreases k,
{
    if k > 0 {
        lemma_rot_cb_commute(g, n, face, cw_rot, cw_cyc, k - 1);
        lemma_cb_wf(g, n, face, cw_cyc, k - 1);
        lemma_rot_cycle_commute(cycles_below(g, n, face, cw_cyc, k - 1), n, face, cw_rot, cw_cyc, k - 1);
    }
}

/// The cycle of a layer at or above `k` commutes with the cycles of all
/// layers below `k`.
proof fn lemma_cycle_cb_commute(
    g: Seq<Seq<Seq<i8>>>,
    n: int,
    face: Face,
    cw1: bool,
    cw2: bool,
    l: int,
    k: int,
)
    requires
        wf_grid(g, n),
        0 <= k <= l < n,
    ensures
        cycle_at(cycles_below(g, n, face, cw2, k), n, face, cw1, l) == cycles_below(
            cycle_at(g, n, face, cw1, l),
            n,
            face,
            cw2,
            k,
        ),
    decreases k,
{
    if k > 0 {
        lemma_cycle_cb_commute(g, n, face, cw1, cw2, l, k - 1);
        lemma_cb_wf(g, n, face, cw2, k - 1);
        lemma_cycle_cycle_commute(cycles_below(g, n, face, cw2, k - 1), n, face, cw1, cw2, l, k - 1);
    }
}

/// The inner-layer cycles of a wide move, then their opposites, cancel.
proof fn lemma_cb_pair(g: Seq<Seq<Seq<i8>>>, n: int, face: Face, cw: bool, k: int)
    requires
        wf_grid(g, n),
        0 <= k <= n,
    ensures
        cycles_below(cycles_below(g, n, face, cw, k), n, face, !cw, k) == g,
    decreases k,
{
    if k > 0 {
        let gb = cycles_below(g, n, face, cw, k - 1);
        lemma_cb_wf(g, n, face, cw, k - 1);
        lemma_cycle_cb_commute(gb, n, face, cw, !cw, k - 1, k - 1);
        lemma_cb_pair(g, n, face, cw, k - 1);
        lemma_cycle_pair(g, n, face, cw, k - 1);
    }
}

/// Doubling the inner-layer cycles reaches the same position in either
/// direction.
proof fn lemma_cb_square(g: Seq<Seq<Seq<i8>>>, n: int, face: Face, k: int)
    requires
        wf_grid(g, n),
        0 <= k <= n,
    ensures
        cycles_below(cycles_below(g, n, face, true, k), n, face, true, k) == cycles_below(
            cycles_below(g, n, face, false, k),
            n,
            face,
            false,
            k,
        ),
    decreases k,
{
    if k > 0 {
        let a_cw = cycles_below(g, n, face, true, k - 1);
        let a_ccw = cycles_below(g, n, face, false, k - 1);
        lemma_cb_wf(g, n, face, true, k - 1);
        lemma_cb_wf(g, n, face, false, k - 1);
        // push the layer-(k-1) cycle of the first pass through the second
        // pass's lower layers
        lemma_cycle_cb_commute(a_cw, n, face, true, true, k - 1, k - 1);
        lemma_cycle_cb_commute(a_ccw, n, face, false, false, k - 1, k - 1);
        lemma_cb_square(g, n, face, k - 1);
        let y = cycles_below(a_cw, n, face, true, k - 1);
        lemma_cb_wf(a_cw, n, face, true, k - 1);
        lemma_cycle_square(y, n, face, k - 1);
    }
}

/// Rotating one face twice reaches the same half turn in either direction.
proof fn lemma_rot_grid_pair(g: Seq<Seq<Seq<i8>>>, n: int, fi: int, cw: bool)
    requires
        wf_grid(g, n),
        0 <= fi < 6,
    ensures
        with_face_rotated(with_face_rotated(g, n, fi, cw), n, fi, !cw) == g,
{
    lemma_rot_pair(g[fi], n);
    assert(with_face_rotated(with_face_rotated(g, n, fi, cw), n, fi, !cw) =~~= g);
}

proof fn lemma_rot_grid_square(g: Seq<Seq<Seq<i8>>>, n: int, fi: int)
    requires
        wf_grid(g, n),
        0 <= fi < 6,
    ensures
        with_face_rotated(with_face_rotated(g, n, fi, true), n, fi, true) == with_face_rotated(
            with_face_rotated(g, n, fi, false),
            n,
            fi,
            false,
        ),
{
    lemma_rot_square(g[fi], n);
    assert(with_face_rotated(with_face_rotated(g, n, fi, true), n, fi, true) =~~= with_face_rotated(
        with_face_rotated(g, n, fi, false),
        n,
        fi,
        false,
    ));
}

/// A quarter turn then the opposite quarter turn of the same face, layer
/// and width restore the state.
pub proof fn lemma_turn_pair(
    g: Seq<Seq<Seq<i8>>>,
    n: int,
    face: Face,
    cw: bool,
    depth: int,
    wide: bool,
)
    requires
        wf_grid(g, n),
        0 <= depth < n,
    ensures
        single_turn(single_turn(g, n, face, cw, depth, wide), n, face, !cw, depth, wide) == g,
{
    let fi = face.index_spec();
    let r1 = with_face_rotated(g, n, fi, cw);
    lemma_rot_grid_wf(g, n, fi, cw);
    let c1 = cycle_at(r1, n, face, cw, depth);
    lemma_cycle_at_wf(r1, n, face, cw, depth);
    let cg = cycle_at(g, n, face, cw, depth);
    lemma_cycle_at_wf(g, n, face, cw, depth);
    // the reverse rotation slides inwards past the cycles
    lemma_rot_cycle_commute(r1, n, face, !cw, cw, depth);
    lemma_rot_grid_pair(g, n, fi, cw);
    // with_face_rotated(c1, fi, !cw) == cycle_at(with_face_rotated(r1, fi, !cw), cw, depth) == cg
    if wide {
        let w1 = cycles_below(c1, n, face, cw, depth);
        lemma_cb_wf(c1, n, face, cw, depth);
        lemma_rot_cb_commute(c1, n, face, !cw, cw, depth);
        // with_face_rotated(w1, fi, !cw) == cycles_below(with_face_rotated(c1, fi, !cw), cw, depth)
        //                                == cycles_below(cg, cw, depth)
        lemma_cycle_cb_commute(cg, n, face, !cw, cw, depth, depth);
        // cycle_at(cycles_below(cg, cw, depth), !cw, depth) == cycles_below(cycle_at(cg, !cw, depth), cw, depth)
        lemma_cycle_pair(g, n, face, cw, depth);
        // cycle_at(cg, !cw, depth) == g
        lemma_cb_pair(g, n, face, cw, depth);
    } else {
        lemma_cycle_pair(g, n, face, cw, depth);
    }
}

/// Doubling a quarter turn reaches the same position in either direction.
pub proof fn lemma_turn_square(g: Seq<Seq<Seq<i8>>>, n: int, face: Face, depth: int, wide: bool)
    requires
        wf_grid(g, n),
        0 <= depth < n,
    ensures
        single_turn(single_turn(g, n, face, true, depth, wide), n, face, true, depth, wide)
            == single_turn(single_turn(g, n, face, false, depth, wide), n, face, false, depth, wide),
{
    let fi = face.index_spec();
    let rr = with_face_rotated(with_face_rotated(g, n, fi, true), n, fi, true);
    lemma_rot_grid_square(g, n, fi);
    lemma_rot_grid_wf(g, n, fi, true);
    lemma_rot_grid_wf(with_face_rotated(g, n, fi, true), n, fi, true);
    lemma_rot_grid_wf(g, n, fi, false);
    lemma_rot_grid_wf(with_face_rotated(g, n, fi, false), n, fi, false);
    let r1 = with_face_rotated(g, n, fi, true);
    let c1 = cycle_at(r1, n, face, true, depth);
    lemma_cycle_at_wf(r1, n, face, true, depth);
    let r1c = with_face_rotated(g, n, fi, false);
    let c1c = cycle_at(r1c, n, face, false, depth);
    lemma_cycle_at_wf(r1c, n, face, false, depth);
    if wide {
        let w1 = cycles_below(c1, n, face, true, depth);
        lemma_cb_wf(c1, n, face, true, depth);
        let w1c = cycles_below(c1c, n, face, false, depth);
        lemma_cb_wf(c1c, n, face, false, depth);
        // normalise the clockwise double turn
        lemma_rot_cb_commute(c1, n, face, true, true, depth);
        lemma_rot_cycle_commute(r1, n, face, true, true, depth);
        // cycle_at(with_face_rotated(w1, fi, true), true, depth)
        //   == cycle_at(cycles_below(cycle_at(rr, true, depth), true, depth), true, depth)
        let crr = cycle_at(rr, n, face, true, depth);
        lemma_cycle_at_wf(rr, n, face, true, depth);
        lemma_cycle_cb_commute(crr, n, face, true, true, depth, depth);
        let ccrr = cycle_at(crr, n, face, true, depth);
        lemma_cycle_at_wf(crr, n, face, true, depth);
        // the whole clockwise double turn:
        //   cycles_below(cycles_below(ccrr, true, depth), true, depth)
        // normalise the counter-clockwise double turn
        lemma_rot_cb_commute(c1c, n, face, false, false, depth);
        lemma_rot_cycle_commute(r1c, n, face, false, false, depth);
        let crrc = cycle_at(rr, n, face, false, depth);
        lemma_cycle_cb_commute(crrc, n, face, false, false, depth, depth);
        let ccrrc = cycle_at(crrc, n, face, false, depth);
        lemma_cycle_at_wf(rr, n, face, false, depth);
        lemma_cycle_at_wf(crrc, n, face, false, depth);
        // equal components
        lemma_cycle_square(rr, n, face, depth);
        lemma_cb_square(ccrr, n, face, depth);
    } else {
        lemma_rot_cycle_commute(r1, n, face, true, true, depth);
        lemma_rot_cycle_commute(r1c, n, face, false, false, depth);
        lemma_cycle_square(rr, n, face, depth);
    }
}

/// Four identical quarter turns restore the state.
pub proof fn lemma_turn_order_four(
    g: Seq<Seq<Seq<i8>>>,
    n: int,
    face: Face,
    cw: bool,
    depth: int,
    wide: bool,
)
    requires
        wf_grid(g, n),
        0 <= depth < n,
    ensures
        single_turn(
            single_turn(
                single_turn(single_turn(g, n, face, cw, depth, wide), n, face, cw, depth, wide),
                n,
                face,
                cw,
                depth,
                wide,
            ),
            n,
            face,
            cw,
            depth,
            wide,
        ) == g,
{
    let t1 = single_turn(g, n, face, cw, depth, wide);
    lemma_turn_wf(g, n, face, cw, depth, wide);
    let t2 = single_turn(t1, n, face, cw, depth, wide);
    lemma_turn_wf(t1, n, face, cw, depth, wide);
    // the double turn is direction-agnostic
    if cw {
        lemma_turn_square(g, n, face, depth, wide);
    } else {
        lemma_turn_square(g, n, face, depth, wide);
    }
    // t2 == T_opp(T_opp(g)), so the last two turns unwind it
    let u1 = single_turn(g, n, face, !cw, depth, wide);
    lemma_turn_wf(g, n, face, !cw, depth, wide);
    lemma_turn_pair(u1, n, face, !cw, depth, wide);
    // single_turn(t2, cw) == single_turn(single_turn(u1, !cw), cw)... == u1
    lemma_turn_pair(g, n, face, !cw, depth, wide);
}

/// The move that names the opposite turn: `f` for `f'` and back, `f2` for
/// itself, a zero turn for itself, at the same face, layer and width.
pub open spec fn inverse_move(mv: Move) -> Move {
    Move {
        dir: match mv.dir {
            Direction::NoTurn => Direction::NoTurn,
            Direction::Clockwise => Direction::CounterClockwise,
            Direction::Half => Direction::Half,
            Direction::CounterClockwise => Direction::Clockwise,
        },
        ..mv
    }
}

/// Every move keeps the grid well-shaped.
pub proof fn lemma_move_wf(g: Seq<Seq<Seq<i8>>>, n: int, mv: Move)
    requires
        wf_grid(g, n),
        mv.depth < n,
    ensures
        wf_grid(move_applied(g, n, mv), n),
{
    match mv.dir {
        Direction::NoTurn => {},
        Direction::Clockwise => {
            lemma_turn_wf(g, n, mv.face, true, mv.depth as int, mv.wide);
        },
        Direction::CounterClockwise => {
            lemma_turn_wf(g, n, mv.face, false, mv.depth as int, mv.wide);
        },
        Direction::Half => {
            lemma_turn_wf(g, n, mv.face, true, mv.depth as int, mv.wide);
            lemma_turn_wf(
                single_turn(g, n, mv.face, true, mv.depth as int, mv.wide),
                n,
                mv.face,
                true,
                mv.depth as int,
                mv.wide,
            );
        },
    }
}

/// Inverse pairing: a move followed by its inverse returns the state to its
/// value before the move — `f` undone by `f'`, `f'` by `f`, `f2` by `f2` —
/// for every size, face, layer and width.
pub proof fn lemma_move_then_inverse(g: Seq<Seq<Seq<i8>>>, n: int, mv: Move)
    requires
        wf_grid(g, n),
        mv.depth < n,
    ensures
        move_applied(move_applied(g, n, mv), n, inverse_move(mv)) == g,
{
    let face = mv.face;
    let depth = mv.depth as int;
    let wide = mv.wide;
    match mv.dir {
        Direction::NoTurn => {},
        Direction::Clockwise => {
            lemma_turn_pair(g, n, face, true, depth, wide);
        },
        Direction::CounterClockwise => {
            lemma_turn_pair(g, n, face, false, depth, wide);
        },
        Direction::Half => {
            // the four clockwise turns of two half turns cancel two by two
            // once the first pair is re-expressed counter-clockwise
            lemma_turn_square(g, n, face, depth, wide);
            let u1 = single_turn(g, n, face, false, depth, wide);
            lemma_turn_wf(g, n, face, false, depth, wide);
            lemma_turn_pair(u1, n, face, false, depth, wide);
            lemma_turn_pair(g, n, face, false, depth, wide);
        },
    }
}

/// Order four: the same quarter-turn move applied four times returns the
/// state to its value before the first application, for every size, face,
/// layer and width; a zero turn and a half turn also return after four
/// applications.
pub proof fn lemma_move_order_four(g: Seq<Seq<Seq<i8>>>, n: int, mv: Move)
    requires
        wf_grid(g, n),
        mv.depth < n,
    ensures
        move_applied(
            move_applied(move_applied(move_applied(g, n, mv), n, mv), n, mv),
            n,
            mv,
        ) == g,
{
    let face = mv.face;
    let depth = mv.depth as int;
    let wide = mv.wide;
    match mv.dir {
        Direction::NoTurn => {},
        Direction::Clockwise => {
            lemma_turn_order_four(g, n, face, true, depth, wide);
        },
        Direction::CounterClockwise => {
            lemma_turn_order_four(g, n, face, false, depth, wide);
        },
        Direction::Half => {
            // each half turn is two quarter turns; eight quarter turns are
            // two full cycles of four
            lemma_turn_order_four(g, n, face, true, depth, wide);
            let t4 = single_turn(
                single_turn(
                    single_turn(single_turn(g, n, face, true, depth, wide), n, face, true, depth, wide),
                    n,
                    face,
                    true,
                    depth,
                    wide,
                ),
                n,
                face,
                true,
                depth,
                wide,
            );
            assert(t4 == g);
            lemma_turn_order_four(t4, n, face, true, depth, wide);
        },
    }
}

/// Half-turn equivalence: the state after `f2` is the state after the same
/// quarter turn `f` applied twice.
pub proof fn lemma_half_turn_is_doubled_quarter(g: Seq<Seq<Seq<i8>>>, n: int, mv: Move)
    requires
        mv.dir == Direction::Half,
    ensures
        move_applied(g, n, mv) == move_applied(
            move_applied(g, n, Move { dir: Direction::Clockwise, ..mv }),
            n,
            Move { dir: Direction::Clockwise, ..mv },
        ),
{
}

proof fn lemma_tokens_of_ws(bytes: Seq<u8>)
    requires
        forall|i: int| 0 <= i < bytes.len() ==> is_ws_byte(#[trigger] bytes[i]),
    ensures
        tokens_of(bytes) == Seq::<Seq<u8>>::empty(),
    decreases bytes.len(),
{
    if bytes.len() > 0 {
        let t = bytes.drop_first();
        assert(forall|i: int| 0 <= i < t.len() ==> is_ws_byte(#[trigger] t[i]));
        lemma_tokens_of_ws(t);
    }
}

/// Identity: applying an empty (or whitespace-only) scramble leaves the
/// state unchanged, for every size.
pub proof fn lemma_empty_scramble_is_identity(g: Seq<Seq<Seq<i8>>>, n: int, bytes: Seq<u8>)
    requires
        forall|i: int| 0 <= i < bytes.len() ==> is_ws_byte(#[trigger] bytes[i]),
    ensures
        scramble_applied(g, n, bytes) == Ok::<Seq<Seq<Seq<i8>>>, ScrambleError>(g),
{
    lemma_tokens_of_ws(bytes);
    assert(parse_all(tokens_of(bytes), n) == Ok::<Seq<Move>, ScrambleError>(Seq::empty()));
    assert(moves_applied(g, n, Seq::empty()) == g);
}

} // verus!
