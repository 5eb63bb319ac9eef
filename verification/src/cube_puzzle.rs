//! The cube state engine: the facelet grid of an NxN cube, the
//! layer-permutation algorithms that realise each face turn, and the
//! application of whole scrambles.
//!
//! The grid is modelled as a sequence of 6 faces, each an `n` by `n` matrix
//! of facelet indices (`0..6`, one per face).  Every mutating operation has
//! a functional specification over that model, and each public property of
//! the engine is proved against those specifications.

use vstd::prelude::*;
use vstd::string::StringSliceAdditionalSpecFns;

verus! {

use crate::puzzles::cube::{
    Direction,
    Face,
    Move,
    ScrambleError,
    parse_token,
    parse_token_spec,
    token_views,
    tokenize,
    tokens_of,
};
use crate::rotations::{is_square, matrix_view, rotate_2d_matrix, rotated_ccw, rotated_cw};
use crate::color::{Color, ColorScheme, color_rendered, default_color_scheme, fill_of};
use crate::element::{Element, element_rendered, pairs_set, pairs_view};
use crate::svg::{Dimension, Svg, children_rendered_each};
use crate::utils::fmt::dec_digits;
use vstd::arithmetic::div_mod::lemma_fundamental_div_mod_converse;
use vstd::arithmetic::mul::{lemma_mul_inequality, lemma_mul_upper_bound};

/// A well-shaped state: 6 faces, each an `n` by `n` matrix.
pub open spec fn wf_grid(g: Seq<Seq<Seq<i8>>>, n: int) -> bool {
    &&& g.len() == 6
    &&& forall|f: int| 0 <= f < 6 ==> is_square(#[trigger] g[f], n)
}

/// Every facelet of the grid names one of the six faces.
pub open spec fn grid_vals_ok(g: Seq<Seq<Seq<i8>>>) -> bool {
    forall|f: int, i: int, j: int|
        0 <= f < g.len() && 0 <= i < g[f].len() && 0 <= j < g[f][i].len() ==> 0 <= #[trigger] g[f][i][j]
            < 6
}

/// The view of the state vector as a mathematical grid.
pub open spec fn grid_view(v: &Vec<Vec<Vec<i8>>>) -> Seq<Seq<Seq<i8>>> {
    Seq::new(v@.len(), |f: int| matrix_view(&v@[f]))
}

/// Column `c` of the matrix, read top to bottom.
pub open spec fn col_of(m: Seq<Seq<i8>>, c: int, n: int) -> Seq<i8> {
    Seq::new(n as nat, |i: int| m[i][c])
}

/// The matrix with column `c` replaced by the values of `v`.
pub open spec fn with_col(m: Seq<Seq<i8>>, c: int, v: Seq<i8>) -> Seq<Seq<i8>> {
    Seq::new(m.len(), |i: int| m[i].update(c, v[i]))
}

/// The matrix with column `c` replaced by `v` on the first `k` rows only.
pub open spec fn with_col_upto(m: Seq<Seq<i8>>, c: int, v: Seq<i8>, k: int) -> Seq<Seq<i8>> {
    Seq::new(
        m.len(),
        |i: int|
            if i < k {
                m[i].update(c, v[i])
            } else {
                m[i]
            },
    )
}

/// The four-cycle of vertical strips around the R/L axis: face `r0`'s column
/// `s0` receives face `r1`'s, `r1`'s receives `r2`'s, `r2`'s receives face
/// `r3`'s column `s1` reversed, and `r3`'s column `s1` receives `r0`'s
/// original column reversed.
pub open spec fn rl_cycled(
    g: Seq<Seq<Seq<i8>>>,
    n: int,
    r0: int,
    r1: int,
    r2: int,
    r3: int,
    s0: int,
    s1: int,
) -> Seq<Seq<Seq<i8>>> {
    g.update(r0, with_col(g[r0], s0, col_of(g[r1], s0, n))).update(
        r1,
        with_col(g[r1], s0, col_of(g[r2], s0, n)),
    ).update(r2, with_col(g[r2], s0, col_of(g[r3], s1, n).reverse())).update(
        r3,
        with_col(g[r3], s1, col_of(g[r0], s0, n).reverse()),
    )
}

/// The four-cycle of horizontal strips around the U/D axis: each face's row
/// `row` receives the next face's row, and the last receives the first's.
pub open spec fn ud_cycled(
    g: Seq<Seq<Seq<i8>>>,
    n: int,
    r0: int,
    r1: int,
    r2: int,
    r3: int,
    row: int,
) -> Seq<Seq<Seq<i8>>> {
    g.update(r0, g[r0].update(row, g[r1][row])).update(r1, g[r1].update(row, g[r2][row])).update(
        r2,
        g[r2].update(row, g[r3][row]),
    ).update(r3, g[r3].update(row, g[r0][row]))
}

/// One of the two mirrored four-cycles around the F/B axis, at layer offset
/// `layer` (counted from the turning face).
pub open spec fn fb_cycled(
    g: Seq<Seq<Seq<i8>>>,
    n: int,
    r0: int,
    r1: int,
    r2: int,
    r3: int,
    layer: int,
) -> Seq<Seq<Seq<i8>>> {
    let k = n - 1 - layer;
    g.update(r0, g[r0].update(k, col_of(g[r1], k, n).reverse())).update(
        r1,
        with_col(g[r1], k, g[r2][layer]),
    ).update(r2, g[r2].update(layer, col_of(g[r3], layer, n).reverse())).update(
        r3,
        with_col(g[r3], layer, g[r0][k]),
    )
}

/// The mirror image of `fb_cycled`, used for the face/direction combinations
/// of opposite chirality.
pub open spec fn rev_fb_cycled(
    g: Seq<Seq<Seq<i8>>>,
    n: int,
    r0: int,
    r1: int,
    r2: int,
    r3: int,
    layer: int,
) -> Seq<Seq<Seq<i8>>> {
    let k = n - 1 - layer;
    g.update(r2, g[r2].update(k, col_of(g[r1], layer, n))).update(
        r1,
        with_col(g[r1], layer, g[r0][layer].reverse()),
    ).update(r0, g[r0].update(layer, col_of(g[r3], k, n))).update(
        r3,
        with_col(g[r3], k, g[r2][k].reverse()),
    )
}

/// The grid with the given face's own matrix turned a quarter turn.
pub open spec fn with_face_rotated(
    g: Seq<Seq<Seq<i8>>>,
    n: int,
    f: int,
    clockwise: bool,
) -> Seq<Seq<Seq<i8>>> {
    g.update(
        f,
        if clockwise {
            rotated_cw(g[f], n)
        } else {
            rotated_ccw(g[f], n)
        },
    )
}

/// The strip cycle performed for a quarter turn of `face` at layer `layer`,
/// with the ring of adjacent faces and the strip coordinates fixed per axis.
/// The boundary layer `n - 1` coincides with the opposite face and is not an
/// inner layer, so turning it moves no strips: the cycle there is the
/// identity.
pub open spec fn cycle_at(
    g: Seq<Seq<Seq<i8>>>,
    n: int,
    face: Face,
    clockwise: bool,
    layer: int,
) -> Seq<Seq<Seq<i8>>> {
    if layer == n - 1 {
        g
    } else {
        cycle_at_inner(g, n, face, clockwise, layer)
    }
}

/// The strip four-cycle of an inner layer, by axis family.
pub open spec fn cycle_at_inner(
    g: Seq<Seq<Seq<i8>>>,
    n: int,
    face: Face,
    clockwise: bool,
    layer: int,
) -> Seq<Seq<Seq<i8>>> {
    match face {
        Face::R => if clockwise {
            rl_cycled(g, n, 1, 2, 4, 5, n - 1 - layer, layer)
        } else {
            rl_cycled(g, n, 4, 2, 1, 5, n - 1 - layer, layer)
        },
        Face::L => if clockwise {
            rl_cycled(g, n, 4, 2, 1, 5, layer, n - 1 - layer)
        } else {
            rl_cycled(g, n, 1, 2, 4, 5, layer, n - 1 - layer)
        },
        Face::U => if clockwise {
            ud_cycled(g, n, 0, 5, 3, 2, layer)
        } else {
            ud_cycled(g, n, 0, 2, 3, 5, layer)
        },
        Face::D => if clockwise {
            ud_cycled(g, n, 0, 2, 3, 5, n - 1 - layer)
        } else {
            ud_cycled(g, n, 0, 5, 3, 2, n - 1 - layer)
        },
        Face::F => if clockwise {
            fb_cycled(g, n, 1, 3, 4, 0, layer)
        } else {
            rev_fb_cycled(g, n, 4, 0, 1, 3, layer)
        },
        Face::B => if clockwise {
            rev_fb_cycled(g, n, 1, 3, 4, 0, layer)
        } else {
            fb_cycled(g, n, 4, 0, 1, 3, layer)
        },
    }
}

/// The strip cycles for the inner layers `0 .. k` of a wide move, applied in
/// ascending order.
pub open spec fn cycles_below(
    g: Seq<Seq<Seq<i8>>>,
    n: int,
    face: Face,
    clockwise: bool,
    k: int,
) -> Seq<Seq<Seq<i8>>>
    decreases k,
{
    if k <= 0 {
        g
    } else {
        cycle_at(cycles_below(g, n, face, clockwise, k - 1), n, face, clockwise, k - 1)
    }
}

/// One physical quarter turn: the turning face's own matrix rotates, the
/// strip ring cycles at `depth`, and a wide move also cycles every layer
/// outside `depth`.  At the boundary depth `n - 1` only the face rotation
/// (and, for a wide move, the inner layers) has any effect.
pub open spec fn single_turn(
    g: Seq<Seq<Seq<i8>>>,
    n: int,
    face: Face,
    clockwise: bool,
    depth: int,
    wide: bool,
) -> Seq<Seq<Seq<i8>>> {
    let g1 = with_face_rotated(g, n, face.index_spec(), clockwise);
    let g2 = cycle_at(g1, n, face, clockwise, depth);
    if wide {
        cycles_below(g2, n, face, clockwise, depth)
    } else {
        g2
    }
}

/// The full effect of one parsed move: nothing for a zero turn, one quarter
/// turn for each turning direction, and a half turn as two clockwise quarter
/// turns.
pub open spec fn move_applied(g: Seq<Seq<Seq<i8>>>, n: int, mv: Move) -> Seq<Seq<Seq<i8>>> {
    match mv.dir {
        Direction::NoTurn => g,
        Direction::Clockwise => single_turn(g, n, mv.face, true, mv.depth as int, mv.wide),
        Direction::CounterClockwise => single_turn(g, n, mv.face, false, mv.depth as int, mv.wide),
        Direction::Half => single_turn(
            single_turn(g, n, mv.face, true, mv.depth as int, mv.wide),
            n,
            mv.face,
            true,
            mv.depth as int,
            mv.wide,
        ),
    }
}

/// A sequence of moves applied left to right.
pub open spec fn moves_applied(g: Seq<Seq<Seq<i8>>>, n: int, ms: Seq<Move>) -> Seq<Seq<Seq<i8>>>
    decreases ms.len(),
{
    if ms.len() == 0 {
        g
    } else {
        moves_applied(move_applied(g, n, ms[0]), n, ms.drop_first())
    }
}

/// All tokens parsed left to right; the first failing token's error aborts
/// the whole scramble.
pub open spec fn parse_all(ts: Seq<Seq<u8>>, size: int) -> Result<Seq<Move>, ScrambleError>
    decreases ts.len(),
{
    if ts.len() == 0 {
        Ok(Seq::empty())
    } else {
        match parse_token_spec(ts[0], size) {
            Err(e) => Err(e),
            Ok(m) => match parse_all(ts.drop_first(), size) {
                Err(e) => Err(e),
                Ok(ms) => Ok(seq![m] + ms),
            },
        }
    }
}

/// What a whole scramble string does to a grid: tokenize, parse every token,
/// and either apply all moves in order or fail without touching the state.
pub open spec fn scramble_applied(g: Seq<Seq<Seq<i8>>>, n: int, bytes: Seq<u8>) -> Result<
    Seq<Seq<Seq<i8>>>,
    ScrambleError,
> {
    match parse_all(tokens_of(bytes), n) {
        Ok(ms) => Ok(moves_applied(g, n, ms)),
        Err(e) => Err(e),
    }
}

/// The grid of a freshly built cube: face `f` is filled with facelet `f`.
pub open spec fn solved_grid(n: int) -> Seq<Seq<Seq<i8>>> {
    Seq::new(6, |f: int| Seq::new(n as nat, |i: int| Seq::new(n as nat, |j: int| f as i8)))
}

/// The cube order selected by an event code, written over the code's bytes:
/// `"222"` to `"777"` name their order, `"OH"` and `"3BLD"` mean a 3x3x3,
/// anything else yields 0 (no puzzle).
pub open spec fn event_size(s: Seq<u8>) -> int {
    if s.len() == 3 && s[0] == 51 && s[1] == 51 && s[2] == 51 {
        3
    } else if s.len() == 2 && s[0] == 79 && s[1] == 72 {
        3
    } else if s.len() == 4 && s[0] == 51 && s[1] == 66 && s[2] == 76 && s[3] == 68 {
        3
    } else if s.len() == 3 && s[0] == 50 && s[1] == 50 && s[2] == 50 {
        2
    } else if s.len() == 3 && s[0] == 52 && s[1] == 52 && s[2] == 52 {
        4
    } else if s.len() == 3 && s[0] == 53 && s[1] == 53 && s[2] == 53 {
        5
    } else if s.len() == 3 && s[0] == 54 && s[1] == 54 && s[2] == 54 {
        6
    } else if s.len() == 3 && s[0] == 55 && s[1] == 55 && s[2] == 55 {
        7
    } else {
        0
    }
}

/// Maps an event code to the order of the cube it selects, 0 when the code
/// is not recognised.
pub fn get_cube_size(event: &str) -> (r: usize)
    ensures
        r as int == event_size(event.spec_bytes()),
        r == 0 || 2 <= r <= 7,
{
    let b = event.as_bytes();
    let n = b.len();
    if n == 3 {
        let d = b[0];
        if d == b[1] && d == b[2] {
            if d == 51 {
                3
            } else if d == 50 {
                2
            } else if d == 52 {
                4
            } else if d == 53 {
                5
            } else if d == 54 {
                6
            } else if d == 55 {
                7
            } else {
                0
            }
        } else {
            0
        }
    } else if n == 2 && b[0] == 79 && b[1] == 72 {
        3
    } else if n == 4 && b[0] == 51 && b[1] == 66 && b[2] == 76 && b[3] == 68 {
        3
    } else {
        0
    }
}

/// A cube of a fixed order together with the drawing parameters of its
/// unfolded net.
pub struct CubePuzzle {
    pub size: usize,
    pub cubie_size: usize,
    pub gap: usize,
    pub state: Vec<Vec<Vec<i8>>>,
}

impl CubePuzzle {
    /// The state vector holds a well-shaped 6 x size x size grid of facelet
    /// indices.
    pub open spec fn wf(&self) -> bool {
        &&& wf_grid(self.grid(), self.size as int)
        &&& grid_vals_ok(self.grid())
        &&& 2 <= self.size <= 16384
    }

    /// The mathematical value of the cube's state.
    pub open spec fn grid(&self) -> Seq<Seq<Seq<i8>>> {
        grid_view(&self.state)
    }

    /// Builds a solved cube of the given order.
    pub fn new(size: usize) -> (r: CubePuzzle)
        requires
            2 <= size <= 16384,
        ensures
            r.wf(),
            r.size == size,
            r.cubie_size == 10,
            r.gap == 2,
            r.grid() == solved_grid(size as int),
    {
        let mut state: Vec<Vec<Vec<i8>>> = Vec::new();
        let mut f: usize = 0;
        while f < 6
            invariant
                f <= 6,
                2 <= size <= 16384,
                state@.len() == f,
                forall|a: int| #![auto]
                    0 <= a < f ==> matrix_view(&state@[a]) == solved_grid(size as int)[a],
            decreases 6 - f,
        {
            let mut face: Vec<Vec<i8>> = Vec::new();
            let mut i: usize = 0;
            while i < size
                invariant
                    i <= size,
                    f < 6,
                    2 <= size <= 16384,
                    face@.len() == i,
                    forall|a: int| #![auto]
                        0 <= a < i ==> face@[a]@ == solved_grid(size as int)[f as int][a],
                decreases size - i,
            {
                let mut row: Vec<i8> = Vec::new();
                let mut j: usize = 0;
                while j < size
                    invariant
                        j <= size,
                        f < 6,
                        row@.len() == j,
                        forall|b: int| 0 <= b < j ==> #[trigger] row@[b] == f as i8,
                    decreases size - j,
                {
                    row.push(f as i8);
                    j += 1;
                }
                proof {
                    assert(row@ =~= solved_grid(size as int)[f as int][i as int]);
                }
                face.push(row);
                i += 1;
            }
            proof {
                assert(matrix_view(&face) =~~= solved_grid(size as int)[f as int]);
            }
            state.push(face);
            f += 1;
        }
        let r = CubePuzzle { size, cubie_size: 10, gap: 2, state };
        proof {
            assert(r.grid() =~~= solved_grid(size as int));
        }
        r
    }

    /// Reads row `i` of face `f`.
    fn read_row(&self, f: usize, i: usize) -> (v: Vec<i8>)
        requires
            self.wf(),
            f < 6,
            i < self.size,
        ensures
            v@ == self.grid()[f as int][i as int],
            v@.len() == self.size,
            forall|k: int| 0 <= k < v@.len() ==> 0 <= #[trigger] v@[k] < 6,
    {
        let n = self.size;
        let mut v: Vec<i8> = Vec::new();
        let mut j: usize = 0;
        while j < n
            invariant
                self.wf(),
                f < 6,
                i < n,
                n == self.size,
                j <= n,
                v@.len() == j,
                forall|k: int| 0 <= k < j ==> #[trigger] v@[k] == self.grid()[f as int][i as int][k],
            decreases n - j,
        {
            proof {
                assert(is_square(self.grid()[f as int], n as int));
                assert(self.state@[f as int]@.len() == n);
                assert(self.grid()[f as int][i as int] == self.state@[f as int]@[i as int]@);
            }
            let c = self.state[f][i][j];
            v.push(c);
            j += 1;
        }
        proof {
            assert(v@ =~= self.grid()[f as int][i as int]);
        }
        v
    }

    /// Reads row `i` of face `f` in reverse order.
    fn read_row_rev(&self, f: usize, i: usize) -> (v: Vec<i8>)
        requires
            self.wf(),
            f < 6,
            i < self.size,
        ensures
            v@ == self.grid()[f as int][i as int].reverse(),
            v@.len() == self.size,
            forall|k: int| 0 <= k < v@.len() ==> 0 <= #[trigger] v@[k] < 6,
    {
        let n = self.size;
        let mut v: Vec<i8> = Vec::new();
        let mut j: usize = 0;
        while j < n
            invariant
                self.wf(),
                f < 6,
                i < n,
                n == self.size,
                j <= n,
                v@.len() == j,
                forall|k: int|
                    0 <= k < j ==> #[trigger] v@[k] == self.grid()[f as int][i as int][n - 1 - k],
            decreases n - j,
        {
            proof {
                assert(is_square(self.grid()[f as int], n as int));
                assert(self.state@[f as int]@.len() == n);
                assert(self.grid()[f as int][i as int] == self.state@[f as int]@[i as int]@);
            }
            let c = self.state[f][i][n - 1 - j];
            v.push(c);
            j += 1;
        }
        proof {
            assert(v@ =~= self.grid()[f as int][i as int].reverse());
        }
        v
    }

    /// Reads column `c` of face `f`, top to bottom.
    fn read_col(&self, f: usize, c: usize) -> (v: Vec<i8>)
        requires
            self.wf(),
            f < 6,
            c < self.size,
        ensures
            v@ == col_of(self.grid()[f as int], c as int, self.size as int),
            v@.len() == self.size,
            forall|k: int| 0 <= k < v@.len() ==> 0 <= #[trigger] v@[k] < 6,
    {
        let n = self.size;
        let mut v: Vec<i8> = Vec::new();
        let mut i: usize = 0;
        while i < n
            invariant
                self.wf(),
                f < 6,
                c < n,
                n == self.size,
                i <= n,
                v@.len() == i,
                forall|k: int| 0 <= k < i ==> #[trigger] v@[k] == self.grid()[f as int][k][c as int],
            decreases n - i,
        {
            proof {
                assert(is_square(self.grid()[f as int], n as int));
                assert(self.state@[f as int]@.len() == n);
                assert(self.grid()[f as int][i as int] == self.state@[f as int]@[i as int]@);
            }
            let x = self.state[f][i][c];
            v.push(x);
            i += 1;
        }
        proof {
            assert(v@ =~= col_of(self.grid()[f as int], c as int, self.size as int));
        }
        v
    }

    /// Reads column `c` of face `f`, bottom to top.
    fn read_col_rev(&self, f: usize, c: usize) -> (v: Vec<i8>)
        requires
            self.wf(),
            f < 6,
            c < self.size,
        ensures
            v@ == col_of(self.grid()[f as int], c as int, self.size as int).reverse(),
            v@.len() == self.size,
            forall|k: int| 0 <= k < v@.len() ==> 0 <= #[trigger] v@[k] < 6,
    {
        let n = self.size;
        let mut v: Vec<i8> = Vec::new();
        let mut i: usize = 0;
        while i < n
            invariant
                self.wf(),
                f < 6,
                c < n,
                n == self.size,
                i <= n,
                v@.len() == i,
                forall|k: int|
                    0 <= k < i ==> #[trigger] v@[k] == self.grid()[f as int][n - 1 - k][c as int],
            decreases n - i,
        {
            proof {
                assert(is_square(self.grid()[f as int], n as int));
                assert(self.state@[f as int]@.len() == n);
                assert(self.grid()[f as int][(n - 1 - i) as int] == self.state@[f as int]@[(n - 1
                    - i) as int]@);
            }
            let x = self.state[f][n - 1 - i][c];
            v.push(x);
            i += 1;
        }
        proof {
            assert(v@ =~= col_of(self.grid()[f as int], c as int, self.size as int).reverse());
        }
        v
    }

    /// Replaces row `i` of face `f` with `v`.
    fn write_row(&mut self, f: usize, i: usize, v: Vec<i8>)
        requires
            old(self).wf(),
            f < 6,
            i < old(self).size,
            v@.len() == old(self).size,
            forall|k: int| 0 <= k < v@.len() ==> 0 <= #[trigger] v@[k] < 6,
        ensures
            final(self).wf(),
            final(self).size == old(self).size,
            final(self).cubie_size == old(self).cubie_size,
            final(self).gap == old(self).gap,
            final(self).grid() == old(self).grid().update(
                f as int,
                old(self).grid()[f as int].update(i as int, v@),
            ),
    {
        let ghost g0 = self.grid();
        proof {
            assert(is_square(g0[f as int], self.size as int));
            assert(self.state@[f as int]@.len() == self.size);
        }
        self.state[f][i] = v;
        proof {
            assert(self.grid() =~~= g0.update(f as int, g0[f as int].update(i as int, v@)));
        }
    }

    /// Replaces column `c` of face `f` with the values of `v`.
    fn write_col(&mut self, f: usize, c: usize, v: Vec<i8>)
        requires
            old(self).wf(),
            f < 6,
            c < old(self).size,
            v@.len() == old(self).size,
            forall|k: int| 0 <= k < v@.len() ==> 0 <= #[trigger] v@[k] < 6,
        ensures
            final(self).wf(),
            final(self).size == old(self).size,
            final(self).cubie_size == old(self).cubie_size,
            final(self).gap == old(self).gap,
            final(self).grid() == old(self).grid().update(
                f as int,
                with_col(old(self).grid()[f as int], c as int, v@),
            ),
    {
        let ghost g0 = self.grid();
        let n = self.size;
        let mut i: usize = 0;
        proof {
            assert(self.grid() =~~= g0.update(
                f as int,
                with_col_upto(g0[f as int], c as int, v@, 0),
            ));
        }
        while i < n
            invariant
                wf_grid(g0, n as int),
                grid_vals_ok(g0),
                2 <= n <= 16384,
                f < 6,
                c < n,
                i <= n,
                v@.len() == n,
                forall|k: int| 0 <= k < v@.len() ==> 0 <= #[trigger] v@[k] < 6,
                self.size == n,
                self.cubie_size == old(self).cubie_size,
                self.gap == old(self).gap,
                self.grid() == g0.update(f as int, with_col_upto(g0[f as int], c as int, v@, i as int)),
            decreases n - i,
        {
            let ghost gprev = self.grid();
            proof {
                assert(is_square(g0[f as int], n as int));
                assert(self.grid().len() == g0.len());
                assert(self.state@.len() == self.grid().len());
                assert(self.grid()[f as int] == with_col_upto(g0[f as int], c as int, v@, i as int));
                assert(self.state@[f as int]@.len() == self.grid()[f as int].len());
                assert(self.grid()[f as int].len() == g0[f as int].len());
                assert(self.grid()[f as int][i as int] == g0[f as int][i as int]);
                assert(self.state@[f as int]@[i as int]@ == self.grid()[f as int][i as int]);
                assert(g0[f as int][i as int].len() == n);
            }
            let x = v[i];
            self.state[f][i][c] = x;
            proof {
                assert(self.grid() =~~= gprev.update(
                    f as int,
                    gprev[f as int].update(
                        i as int,
                        gprev[f as int][i as int].update(c as int, x),
                    ),
                ));
                assert(gprev[f as int][i as int] == g0[f as int][i as int]);
                assert(self.grid() =~~= g0.update(
                    f as int,
                    with_col_upto(g0[f as int], c as int, v@, i + 1),
                ));
            }
            i += 1;
        }
        proof {
            assert(with_col_upto(g0[f as int], c as int, v@, n as int) =~= with_col(
                g0[f as int],
                c as int,
                v@,
            ));
            assert(self.grid() == g0.update(f as int, with_col(g0[f as int], c as int, v@)));
            assert(final(self).wf()) by {
                assert(forall|ff: int|
                    0 <= ff < 6 ==> is_square(#[trigger] self.grid()[ff], n as int));
                assert(grid_vals_ok(self.grid())) by {
                    assert(forall|ff: int, a: int, b: int|
                        0 <= ff < 6 && 0 <= a < self.grid()[ff].len() && 0 <= b
                            < self.grid()[ff][a].len() ==> 0 <= #[trigger] self.grid()[ff][a][b]
                            < 6);
                }
            }
        }
    }

    /// Reads the whole matrix of face `f`.
    fn read_face(&self, f: usize) -> (m: Vec<Vec<i8>>)
        requires
            self.wf(),
            f < 6,
        ensures
            matrix_view(&m) == self.grid()[f as int],
            is_square(matrix_view(&m), self.size as int),
            forall|i: int, j: int|
                0 <= i < self.size && 0 <= j < self.size ==> 0 <= #[trigger] matrix_view(&m)[i][j]
                    < 6,
    {
        let n = self.size;
        let mut m: Vec<Vec<i8>> = Vec::new();
        let mut i: usize = 0;
        while i < n
            invariant
                self.wf(),
                f < 6,
                n == self.size,
                i <= n,
                m@.len() == i,
                forall|a: int| #![auto] 0 <= a < i ==> m@[a]@ == self.grid()[f as int][a],
            decreases n - i,
        {
            let row = self.read_row(f, i);
            m.push(row);
            i += 1;
        }
        proof {
            assert(matrix_view(&m) =~~= self.grid()[f as int]);
            assert(is_square(self.grid()[f as int], n as int));
        }
        m
    }

    /// Replaces the whole matrix of face `f`.
    fn write_face(&mut self, f: usize, m: Vec<Vec<i8>>)
        requires
            old(self).wf(),
            f < 6,
            is_square(matrix_view(&m), old(self).size as int),
            forall|i: int, j: int|
                0 <= i < old(self).size && 0 <= j < old(self).size ==> 0 <= #[trigger] matrix_view(
                    &m,
                )[i][j] < 6,
        ensures
            final(self).wf(),
            final(self).size == old(self).size,
            final(self).cubie_size == old(self).cubie_size,
            final(self).gap == old(self).gap,
            final(self).grid() == old(self).grid().update(f as int, matrix_view(&m)),
    {
        let ghost g0 = self.grid();
        let ghost mv = matrix_view(&m);
        self.state[f] = m;
        proof {
            assert(self.grid() =~~= g0.update(f as int, mv));
            assert(final(self).wf()) by {
                assert(forall|ff: int|
                    0 <= ff < 6 ==> is_square(#[trigger] self.grid()[ff], self.size as int));
            }
        }
    }

    /// Turns face `face`'s own matrix a quarter turn.
    fn rotate_face(&mut self, face: Face, clockwise: bool)
        requires
            old(self).wf(),
        ensures
            final(self).wf(),
            final(self).size == old(self).size,
            final(self).cubie_size == old(self).cubie_size,
            final(self).gap == old(self).gap,
            final(self).grid() == with_face_rotated(
                old(self).grid(),
                old(self).size as int,
                face.index_spec(),
                clockwise,
            ),
    {
        let fi = face.index();
        let n = self.size;
        let ghost g0 = self.grid();
        let mut m = self.read_face(fi);
        rotate_2d_matrix(&mut m, n, clockwise);
        proof {
            let r = matrix_view(&m);
            assert(forall|i: int, j: int|
                0 <= i < n && 0 <= j < n ==> 0 <= #[trigger] r[i][j] < 6) by {
                if clockwise {
                    assert(forall|i: int, j: int|
                        0 <= i < n && 0 <= j < n ==> #[trigger] r[i][j] == g0[fi as int][n - 1
                            - j][i]);
                } else {
                    assert(forall|i: int, j: int|
                        0 <= i < n && 0 <= j < n ==> #[trigger] r[i][j] == g0[fi as int][j][n - 1
                            - i]);
                }
            }
        }
        self.write_face(fi, m);
    }

    /// Performs the strip cycle of one layer of a quarter turn.
    fn rotate_layer(&mut self, face: Face, clockwise: bool, layer: usize)
        requires
            old(self).wf(),
            layer < old(self).size,
        ensures
            final(self).wf(),
            final(self).size == old(self).size,
            final(self).cubie_size == old(self).cubie_size,
            final(self).gap == old(self).gap,
            final(self).grid() == cycle_at(
                old(self).grid(),
                old(self).size as int,
                face,
                clockwise,
                layer as int,
            ),
    {
        let n = self.size;
        if layer == n - 1 {
            // the boundary layer has no strips of its own to move
            return ;
        }
        match face {
            Face::R => {
                if clockwise {
                    self.rotate_rl_layer(1, 2, 4, 5, n - 1 - layer, layer);
                } else {
                    self.rotate_rl_layer(4, 2, 1, 5, n - 1 - layer, layer);
                }
            },
            Face::L => {
                if clockwise {
                    self.rotate_rl_layer(4, 2, 1, 5, layer, n - 1 - layer);
                } else {
                    self.rotate_rl_layer(1, 2, 4, 5, layer, n - 1 - layer);
                }
            },
            Face::U => {
                if clockwise {
                    self.rotate_ud_layer(0, 5, 3, 2, layer);
                } else {
                    self.rotate_ud_layer(0, 2, 3, 5, layer);
                }
            },
            Face::D => {
                if clockwise {
                    self.rotate_ud_layer(0, 2, 3, 5, n - 1 - layer);
                } else {
                    self.rotate_ud_layer(0, 5, 3, 2, n - 1 - layer);
                }
            },
            Face::F => {
                if clockwise {
                    self.rotate_fb_layer(1, 3, 4, 0, layer);
                } else {
                    self.rev_rotate_fb_layer(4, 0, 1, 3, layer);
                }
            },
            Face::B => {
                if clockwise {
                    self.rev_rotate_fb_layer(1, 3, 4, 0, layer);
                } else {
                    self.rotate_fb_layer(4, 0, 1, 3, layer);
                }
            },
        }
    }

    /// The vertical-strip four-cycle around the R/L axis.
    fn rotate_rl_layer(
        &mut self,
        r0: usize,
        r1: usize,
        r2: usize,
        r3: usize,
        s0: usize,
        s1: usize,
    )
        requires
            old(self).wf(),
            r0 < 6 && r1 < 6 && r2 < 6 && r3 < 6,
            r0 != r1 && r0 != r2 && r0 != r3 && r1 != r2 && r1 != r3 && r2 != r3,
            s0 < old(self).size,
            s1 < old(self).size,
        ensures
            final(self).wf(),
            final(self).size == old(self).size,
            final(self).cubie_size == old(self).cubie_size,
            final(self).gap == old(self).gap,
            final(self).grid() == rl_cycled(
                old(self).grid(),
                old(self).size as int,
                r0 as int,
                r1 as int,
                r2 as int,
                r3 as int,
                s0 as int,
                s1 as int,
            ),
    {
        let ghost g0 = self.grid();
        let ghost n = self.size as int;
        let b1 = self.read_col(r1, s0);
        let b2 = self.read_col(r2, s0);
        let b3 = self.read_col_rev(r3, s1);
        let b0 = self.read_col_rev(r0, s0);
        self.write_col(r0, s0, b1);
        self.write_col(r1, s0, b2);
        self.write_col(r2, s0, b3);
        self.write_col(r3, s1, b0);
        proof {
            assert(self.grid() =~~= rl_cycled(
                g0,
                n,
                r0 as int,
                r1 as int,
                r2 as int,
                r3 as int,
                s0 as int,
                s1 as int,
            ));
        }
    }

    /// The horizontal-strip four-cycle around the U/D axis.
    fn rotate_ud_layer(&mut self, r0: usize, r1: usize, r2: usize, r3: usize, row: usize)
        requires
            old(self).wf(),
            r0 < 6 && r1 < 6 && r2 < 6 && r3 < 6,
            r0 != r1 && r0 != r2 && r0 != r3 && r1 != r2 && r1 != r3 && r2 != r3,
            row < old(self).size,
        ensures
            final(self).wf(),
            final(self).size == old(self).size,
            final(self).cubie_size == old(self).cubie_size,
            final(self).gap == old(self).gap,
            final(self).grid() == ud_cycled(
                old(self).grid(),
                old(self).size as int,
                r0 as int,
                r1 as int,
                r2 as int,
                r3 as int,
                row as int,
            ),
    {
        let ghost g0 = self.grid();
        let ghost n = self.size as int;
        let t1 = self.read_row(r1, row);
        let t2 = self.read_row(r2, row);
        let t3 = self.read_row(r3, row);
        let t0 = self.read_row(r0, row);
        self.write_row(r0, row, t1);
        self.write_row(r1, row, t2);
        self.write_row(r2, row, t3);
        self.write_row(r3, row, t0);
        proof {
            assert(self.grid() =~~= ud_cycled(
                g0,
                n,
                r0 as int,
                r1 as int,
                r2 as int,
                r3 as int,
                row as int,
            ));
        }
    }

    /// One of the two mirrored strip four-cycles around the F/B axis.
    fn rotate_fb_layer(&mut self, r0: usize, r1: usize, r2: usize, r3: usize, layer: usize)
        requires
            old(self).wf(),
            r0 < 6 && r1 < 6 && r2 < 6 && r3 < 6,
            r0 != r1 && r0 != r2 && r0 != r3 && r1 != r2 && r1 != r3 && r2 != r3,
            layer < old(self).size,
        ensures
            final(self).wf(),
            final(self).size == old(self).size,
            final(self).cubie_size == old(self).cubie_size,
            final(self).gap == old(self).gap,
            final(self).grid() == fb_cycled(
                old(self).grid(),
                old(self).size as int,
                r0 as int,
                r1 as int,
                r2 as int,
                r3 as int,
                layer as int,
            ),
    {
        let ghost g0 = self.grid();
        let ghost n = self.size as int;
        let k = self.size - 1 - layer;
        let b0 = self.read_col_rev(r1, k);
        let b1 = self.read_row(r2, layer);
        let b2 = self.read_col_rev(r3, layer);
        let b3 = self.read_row(r0, k);
        self.write_row(r0, k, b0);
        self.write_col(r1, k, b1);
        self.write_row(r2, layer, b2);
        self.write_col(r3, layer, b3);
        proof {
            assert(self.grid() =~~= fb_cycled(
                g0,
                n,
                r0 as int,
                r1 as int,
                r2 as int,
                r3 as int,
                layer as int,
            ));
        }
    }

    /// The mirror image of `rotate_fb_layer`.
    fn rev_rotate_fb_layer(&mut self, r0: usize, r1: usize, r2: usize, r3: usize, layer: usize)
        requires
            old(self).wf(),
            r0 < 6 && r1 < 6 && r2 < 6 && r3 < 6,
            r0 != r1 && r0 != r2 && r0 != r3 && r1 != r2 && r1 != r3 && r2 != r3,
            layer < old(self).size,
        ensures
            final(self).wf(),
            final(self).size == old(self).size,
            final(self).cubie_size == old(self).cubie_size,
            final(self).gap == old(self).gap,
            final(self).grid() == rev_fb_cycled(
                old(self).grid(),
                old(self).size as int,
                r0 as int,
                r1 as int,
                r2 as int,
                r3 as int,
                layer as int,
            ),
    {
        let ghost g0 = self.grid();
        let ghost n = self.size as int;
        let k = self.size - 1 - layer;
        let b2 = self.read_col(r1, layer);
        let b1 = self.read_row_rev(r0, layer);
        let b0 = self.read_col(r3, k);
        let b3 = self.read_row_rev(r2, k);
        self.write_row(r2, k, b2);
        self.write_col(r1, layer, b1);
        self.write_row(r0, layer, b0);
        self.write_col(r3, k, b3);
        proof {
            assert(self.grid() =~~= rev_fb_cycled(
                g0,
                n,
                r0 as int,
                r1 as int,
                r2 as int,
                r3 as int,
                layer as int,
            ));
        }
    }

    /// One physical quarter turn: the face's matrix, the layer at `depth`,
    /// and for a wide move every layer outside it.
    fn ap(&mut self, face: Face, clockwise: bool, depth: usize, wide: bool)
        requires
            old(self).wf(),
            depth < old(self).size,
        ensures
            final(self).wf(),
            final(self).size == old(self).size,
            final(self).cubie_size == old(self).cubie_size,
            final(self).gap == old(self).gap,
            final(self).grid() == single_turn(
                old(self).grid(),
                old(self).size as int,
                face,
                clockwise,
                depth as int,
                wide,
            ),
    {
        let ghost g0 = self.grid();
        let ghost n = self.size as int;
        self.rotate_face(face, clockwise);
        self.rotate_layer(face, clockwise, depth);
        let ghost g2 = self.grid();
        if wide {
            let mut i: usize = 0;
            while i < depth
                invariant
                    self.wf(),
                    i <= depth,
                    depth < self.size,
                    self.size as int == n,
                    self.cubie_size == old(self).cubie_size,
                    self.gap == old(self).gap,
                    self.grid() == cycles_below(g2, n, face, clockwise, i as int),
                decreases depth - i,
            {
                self.rotate_layer(face, clockwise, i);
                i += 1;
            }
        }
    }

    /// Applies one parsed move: nothing for a zero turn, one quarter turn
    /// for either direction, and a half turn as two clockwise quarter turns.
    fn apply_move(&mut self, mv: &Move)
        requires
            old(self).wf(),
            mv.depth < old(self).size,
        ensures
            final(self).wf(),
            final(self).size == old(self).size,
            final(self).cubie_size == old(self).cubie_size,
            final(self).gap == old(self).gap,
            final(self).grid() == move_applied(old(self).grid(), old(self).size as int, *mv),
    {
        match mv.dir {
            Direction::NoTurn => {},
            Direction::Clockwise => {
                self.ap(mv.face, true, mv.depth, mv.wide);
            },
            Direction::CounterClockwise => {
                self.ap(mv.face, false, mv.depth, mv.wide);
            },
            Direction::Half => {
                self.ap(mv.face, true, mv.depth, mv.wide);
                self.ap(mv.face, true, mv.depth, mv.wide);
            },
        }
    }

    /// Applies a whole scramble: the text is split on ASCII whitespace, every
    /// token is parsed, and the moves are applied strictly left to right.  If
    /// any token is invalid, or names a layer the cube does not have, the
    /// state is left untouched and the first such error is returned.
    pub fn apply_algorithm(&mut self, scramble: &str) -> (r: Result<(), ScrambleError>)
        requires
            old(self).wf(),
        ensures
            final(self).wf(),
            final(self).size == old(self).size,
            final(self).cubie_size == old(self).cubie_size,
            final(self).gap == old(self).gap,
            match scramble_applied(
                old(self).grid(),
                old(self).size as int,
                scramble.spec_bytes(),
            ) {
                Ok(g) => r == Ok::<(), ScrambleError>(()) && final(self).grid() == g,
                Err(e) => r == Err::<(), ScrambleError>(e) && final(self).grid() == old(
                    self,
                ).grid(),
            },
    {
        let bytes = scramble.as_bytes();
        let toks = tokenize(bytes);
        let ghost ts = tokens_of(scramble.spec_bytes());
        let n_toks = toks.len();
        let size = self.size;
        let mut moves: Vec<Move> = Vec::new();
        let mut i: usize = 0;
        proof {
            assert(token_views(toks@) == ts);
            assert(ts.skip(0) =~= ts);
        }
        while i < n_toks
            invariant
                0 <= i <= n_toks,
                n_toks == toks@.len(),
                token_views(toks@) == ts,
                2 <= size <= 16384,
                self.wf(),
                self.size == size,
                self.size == old(self).size,
                self.cubie_size == old(self).cubie_size,
                self.gap == old(self).gap,
                self.grid() == old(self).grid(),
                ts == tokens_of(scramble.spec_bytes()),
                moves@.len() == i,
                forall|k: int| 0 <= k < i ==> (#[trigger] moves@[k]).depth < size,
                match parse_all(ts.skip(i as int), size as int) {
                    Ok(rest) => parse_all(ts, size as int) == Ok::<Seq<Move>, ScrambleError>(
                        moves@ + rest,
                    ),
                    Err(e) => parse_all(ts, size as int) == Err::<Seq<Move>, ScrambleError>(e),
                },
            decreases n_toks - i,
        {
            let tok = &toks[i];
            let pr = parse_token(tok.as_slice(), size);
            proof {
                assert(ts[i as int] == toks@[i as int]@);
                assert(ts.skip(i as int)[0] == ts[i as int]);
                assert(ts.skip(i as int).drop_first() =~= ts.skip(i + 1));
            }
            match pr {
                Err(e) => {
                    proof {
                        assert(parse_all(ts.skip(i as int), size as int) == Err::<
                            Seq<Move>,
                            ScrambleError,
                        >(e));
                    }
                    return Err(e);
                },
                Ok(m) => {
                    proof {
                        assert(parse_token_spec(ts[i as int], size as int) == Ok::<
                            Move,
                            ScrambleError,
                        >(m));
                        assert(m.depth < size);
                        match parse_all(ts.skip(i + 1), size as int) {
                            Ok(rest) => {
                                assert(parse_all(ts.skip(i as int), size as int) == Ok::<
                                    Seq<Move>,
                                    ScrambleError,
                                >(seq![m] + rest));
                                assert(moves@ + (seq![m] + rest) =~= (moves@.push(m)) + rest);
                            },
                            Err(_) => {},
                        }
                    }
                    moves.push(m);
                },
            }
            i += 1;
        }
        proof {
            assert(ts.skip(n_toks as int) =~= Seq::<Seq<u8>>::empty());
            assert(parse_all(ts.skip(n_toks as int), size as int) == Ok::<Seq<Move>, ScrambleError>(
                Seq::empty(),
            ));
            assert(moves@ + Seq::<Move>::empty() =~= moves@);
            assert(parse_all(ts, size as int) == Ok::<Seq<Move>, ScrambleError>(moves@));
        }
        let ghost g0 = self.grid();
        let n_moves = moves.len();
        let mut j: usize = 0;
        while j < n_moves
            invariant
                0 <= j <= n_moves,
                n_moves == moves@.len(),
                self.wf(),
                self.size == size,
                self.cubie_size == old(self).cubie_size,
                self.gap == old(self).gap,
                forall|k: int| 0 <= k < n_moves ==> (#[trigger] moves@[k]).depth < size,
                self.grid() == moves_applied(g0, size as int, moves@.take(j as int)),
            decreases n_moves - j,
        {
            let ghost pre = moves@.take(j as int);
            let mv = moves[j];
            self.apply_move(&mv);
            proof {
                assert(moves@.take(j + 1) =~= pre.push(mv));
                lemma_moves_applied_snoc(g0, size as int, pre, mv);
            }
            j += 1;
        }
        proof {
            assert(moves@.take(n_moves as int) =~= moves@);
        }
        Ok(())
    }
}

/// The SVG text of the rectangle painted for one facelet.
pub open spec fn facelet_rect_rendered(x: nat, y: nat, cubie: nat, fill: Color) -> Seq<char> {
    element_rendered(
        "rect"@,
        seq![
            ("x"@, dec_digits(x)),
            ("y"@, dec_digits(y)),
            ("width"@, dec_digits(cubie)),
            ("height"@, dec_digits(cubie)),
            ("fill"@, color_rendered(fill)),
            ("stroke"@, color_rendered(Color(0, 0, 0))),
        ],
    )
}

proof fn lemma_rect_pairs(
    vx: Seq<char>,
    vy: Seq<char>,
    vw: Seq<char>,
    vh: Seq<char>,
    vf: Seq<char>,
    vs: Seq<char>,
)
    ensures
        pairs_set(
            pairs_set(
                pairs_set(
                    pairs_set(
                        pairs_set(
                            pairs_set(Seq::<(Seq<char>, Seq<char>)>::empty(), "x"@, vx),
                            "y"@,
                            vy,
                        ),
                        "width"@,
                        vw,
                    ),
                    "height"@,
                    vh,
                ),
                "fill"@,
                vf,
            ),
            "stroke"@,
            vs,
        ) == seq![
            ("x"@, vx),
            ("y"@, vy),
            ("width"@, vw),
            ("height"@, vh),
            ("fill"@, vf),
            ("stroke"@, vs),
        ],
{
    reveal_with_fuel(pairs_set, 8);
    reveal_strlit("x");
    reveal_strlit("y");
    reveal_strlit("width");
    reveal_strlit("height");
    reveal_strlit("fill");
    reveal_strlit("stroke");
    let p0 = Seq::<(Seq<char>, Seq<char>)>::empty();
    let p1 = pairs_set(p0, "x"@, vx);
    assert(p1 =~= seq![("x"@, vx)]);
    let p2 = pairs_set(p1, "y"@, vy);
    assert("y"@ != "x"@) by {
        assert("x"@[0] == 'x' && "y"@[0] == 'y');
    }
    assert(p1.drop_first() =~= p0);
    assert(p2 =~= seq![("x"@, vx), ("y"@, vy)]);
    let p3 = pairs_set(p2, "width"@, vw);
    assert("width"@ != "x"@ && "width"@ != "y"@) by {
        assert("width"@.len() == 5 && "x"@.len() == 1 && "y"@.len() == 1);
    }
    assert(p2.drop_first() =~= seq![("y"@, vy)]);
    assert(seq![("y"@, vy)].drop_first() =~= p0);
    assert(p3 =~= seq![("x"@, vx), ("y"@, vy), ("width"@, vw)]);
    let p4 = pairs_set(p3, "height"@, vh);
    assert("height"@ != "x"@ && "height"@ != "y"@ && "height"@ != "width"@) by {
        assert("height"@.len() == 6 && "width"@.len() == 5);
        assert("x"@.len() == 1 && "y"@.len() == 1);
    }
    assert(p3.drop_first() =~= seq![("y"@, vy), ("width"@, vw)]);
    assert(seq![("y"@, vy), ("width"@, vw)].drop_first() =~= seq![("width"@, vw)]);
    assert(seq![("width"@, vw)].drop_first() =~= p0);
    assert(p4 =~= seq![("x"@, vx), ("y"@, vy), ("width"@, vw), ("height"@, vh)]);
    let p5 = pairs_set(p4, "fill"@, vf);
    assert("fill"@ != "x"@ && "fill"@ != "y"@ && "fill"@ != "width"@ && "fill"@ != "height"@) by {
        assert("fill"@.len() == 4 && "width"@.len() == 5 && "height"@.len() == 6);
        assert("x"@.len() == 1 && "y"@.len() == 1);
    }
    assert(p4.drop_first() =~= seq![("y"@, vy), ("width"@, vw), ("height"@, vh)]);
    assert(seq![("y"@, vy), ("width"@, vw), ("height"@, vh)].drop_first() =~= seq![
        ("width"@, vw),
        ("height"@, vh),
    ]);
    assert(seq![("width"@, vw), ("height"@, vh)].drop_first() =~= seq![("height"@, vh)]);
    assert(seq![("height"@, vh)].drop_first() =~= p0);
    assert(p5 =~= seq![("x"@, vx), ("y"@, vy), ("width"@, vw), ("height"@, vh), ("fill"@, vf)]);
    let p6 = pairs_set(p5, "stroke"@, vs);
    assert("stroke"@ != "x"@ && "stroke"@ != "y"@ && "stroke"@ != "width"@ && "stroke"@ != "height"@
        && "stroke"@ != "fill"@) by {
        assert("stroke"@.len() == 6 && "width"@.len() == 5 && "fill"@.len() == 4);
        assert("x"@.len() == 1 && "y"@.len() == 1);
        assert("stroke"@[0] == 's' && "height"@[0] == 'h');
    }
    assert(p5.drop_first() =~= seq![("y"@, vy), ("width"@, vw), ("height"@, vh), ("fill"@, vf)]);
    assert(seq![("y"@, vy), ("width"@, vw), ("height"@, vh), ("fill"@, vf)].drop_first() =~= seq![
        ("width"@, vw),
        ("height"@, vh),
        ("fill"@, vf),
    ]);
    assert(seq![("width"@, vw), ("height"@, vh), ("fill"@, vf)].drop_first() =~= seq![
        ("height"@, vh),
        ("fill"@, vf),
    ]);
    assert(seq![("height"@, vh), ("fill"@, vf)].drop_first() =~= seq![("fill"@, vf)]);
    assert(seq![("fill"@, vf)].drop_first() =~= p0);
    assert(p6 =~= seq![
        ("x"@, vx),
        ("y"@, vy),
        ("width"@, vw),
        ("height"@, vh),
        ("fill"@, vf),
        ("stroke"@, vs),
    ]);
}

/// The rectangles painted for one face: row by row, left to right.
pub open spec fn face_rects_rendered(
    x: nat,
    y: nat,
    size: nat,
    cubie: nat,
    m: Seq<Seq<i8>>,
    mapping: Seq<Option<Color>>,
) -> Seq<Seq<char>> {
    Seq::new(
        size * size,
        |k: int|
            facelet_rect_rendered(
                (x + (k % size as int) * cubie) as nat,
                (y + (k / size as int) * cubie) as nat,
                cubie,
                fill_of(mapping, m[k / size as int][k % size as int] as int),
            ),
    )
}

impl CubePuzzle {
    /// Paints one face of the cube as a `size` by `size` block of filled
    /// rectangles starting at `(x, y)`, each stroked black and filled with
    /// the scheme's colour for its facelet (black when the scheme has none).
    pub fn paint_cube_face(
        g: &mut Svg,
        x: usize,
        y: usize,
        size: usize,
        cubie_size: usize,
        face_colors: &Vec<Vec<i8>>,
        color_scheme: &ColorScheme,
    )
        requires
            is_square(matrix_view(face_colors), size as int),
            forall|i: int, j: int|
                0 <= i < size && 0 <= j < size ==> 0 <= #[trigger] matrix_view(face_colors)[i][j]
                    < 6,
            color_scheme.wf(),
            size <= 16384,
            cubie_size <= 4096,
            x <= 300_000_000,
            y <= 300_000_000,
        ensures
            final(g).name == old(g).name,
            final(g).attributes == old(g).attributes,
            children_rendered_each(final(g).children@) == children_rendered_each(
                old(g).children@,
            ) + face_rects_rendered(
                x as nat,
                y as nat,
                size as nat,
                cubie_size as nat,
                matrix_view(face_colors),
                color_scheme.entries@,
            ),
    {
        let ghost m = matrix_view(face_colors);
        let ghost frs = face_rects_rendered(
            x as nat,
            y as nat,
            size as nat,
            cubie_size as nat,
            m,
            color_scheme.entries@,
        );
        let ghost c0 = children_rendered_each(g.children@);
        proof {
            assert(frs.take(0) =~= Seq::<Seq<char>>::empty());
            assert(c0 + frs.take(0) =~= c0);
            lemma_mul_upper_bound(size as int, 16384, cubie_size as int, 4096);
        }
        let mut row: usize = 0;
        while row < size
            invariant
                row <= size,
                is_square(m, size as int),
                m == matrix_view(face_colors),
                forall|i: int, j: int|
                    0 <= i < size && 0 <= j < size ==> 0 <= #[trigger] m[i][j] < 6,
                color_scheme.wf(),
                size <= 16384,
                cubie_size <= 4096,
                x <= 300_000_000,
                y <= 300_000_000,
                frs == face_rects_rendered(
                    x as nat,
                    y as nat,
                    size as nat,
                    cubie_size as nat,
                    m,
                    color_scheme.entries@,
                ),
                g.name == old(g).name,
                g.attributes == old(g).attributes,
                children_rendered_each(g.children@) == c0 + frs.take((row * size) as int),
                c0 == children_rendered_each(old(g).children@),
                row * size <= size * size,
                frs.len() == size * size,
            decreases size - row,
        {
            proof {
                lemma_mul_upper_bound(row as int, size as int, size as int, size as int);
                lemma_mul_inequality(row + 1, size as int, size as int);
                assert(row * size <= size * size) by (nonlinear_arith)
                    requires 0 <= row < size;
            }
            let mut col: usize = 0;
            while col < size
                invariant
                    col <= size,
                    row < size,
                    is_square(m, size as int),
                    m == matrix_view(face_colors),
                    forall|i: int, j: int|
                        0 <= i < size && 0 <= j < size ==> 0 <= #[trigger] m[i][j] < 6,
                    color_scheme.wf(),
                    size <= 16384,
                    cubie_size <= 4096,
                    x <= 300_000_000,
                    y <= 300_000_000,
                    frs == face_rects_rendered(
                        x as nat,
                        y as nat,
                        size as nat,
                        cubie_size as nat,
                        m,
                        color_scheme.entries@,
                    ),
                    g.name == old(g).name,
                    g.attributes == old(g).attributes,
                    children_rendered_each(g.children@) == c0 + frs.take(
                        (row * size + col) as int,
                    ),
                    c0 == children_rendered_each(old(g).children@),
                    row * size + col <= size * size,
                decreases size - col,
            {
                proof {
                    lemma_mul_upper_bound(col as int, 16384, cubie_size as int, 4096);
                    lemma_mul_upper_bound(row as int, 16384, cubie_size as int, 4096);
                    assert(row * size + col < size * size) by (nonlinear_arith)
                        requires row < size && col < size && 0 <= row && 0 <= col;
                }
                let tempx = x + col * cubie_size;
                let tempy = y + row * cubie_size;
                let mut rect = Element { name: String::new(), attributes: Vec::new() };
                rect.rectangle(tempx, tempy, cubie_size, cubie_size);
                proof {
                    assert(matrix_view(face_colors)[row as int] == face_colors@[row as int]@);
                }
                let cell = face_colors[row][col];
                let fill = match color_scheme.get_by_index(cell as usize) {
                    Some(c) => c,
                    None => Color(0, 0, 0),
                };
                rect.set_fill(fill);
                rect.set_stroke(Color(0, 0, 0));
                let ghost k: int = row * size + col;
                proof {
                    assert(pairs_view(Seq::<(String, String)>::empty()) =~= Seq::<
                        (Seq<char>, Seq<char>),
                    >::empty());
                    lemma_rect_pairs(
                        dec_digits(tempx as nat),
                        dec_digits(tempy as nat),
                        dec_digits(cubie_size as nat),
                        dec_digits(cubie_size as nat),
                        color_rendered(fill),
                        color_rendered(Color(0, 0, 0)),
                    );
                    assert(element_rendered(rect.name@, pairs_view(rect.attributes@))
                        == facelet_rect_rendered(
                        tempx as nat,
                        tempy as nat,
                        cubie_size as nat,
                        fill,
                    ));
                    lemma_fundamental_div_mod_converse(k, size as int, row as int, col as int);
                    assert(fill == fill_of(color_scheme.entries@, m[row as int][col as int] as int));
                    assert(frs[k] == facelet_rect_rendered(
                        tempx as nat,
                        tempy as nat,
                        cubie_size as nat,
                        fill,
                    ));
                }
                let ghost csb = g.children@;
                let ghost rect_name = rect.name@;
                let ghost rect_attrs = pairs_view(rect.attributes@);
                g.append_child(rect);
                proof {
                    assert(children_rendered_each(csb) == c0 + frs.take(k));
                    assert(g.children@.len() == csb.len() + 1);
                    assert(element_rendered(rect_name, rect_attrs) == frs[k]);
                    assert(children_rendered_each(g.children@)[csb.len() as int]
                        == element_rendered(rect_name, rect_attrs));
                    assert(forall|q: int|
                        0 <= q < csb.len() ==> g.children@[q] == csb[q]);
                    assert(forall|q: int|
                        0 <= q < csb.len() ==> children_rendered_each(g.children@)[q]
                            == #[trigger] children_rendered_each(csb)[q]);
                    assert(frs.len() == size * size);
                    assert(0 <= k && k + 1 <= frs.len());
                    assert(frs.take(k).len() == k);
                    assert(frs.take(k + 1).len() == k + 1);
                    assert(csb.len() == children_rendered_each(csb).len());
                    assert(csb.len() == c0.len() + k);
                    assert(children_rendered_each(g.children@).len() == c0.len() + k + 1);
                    assert forall|q: int| 0 <= q < c0.len() + k + 1 implies children_rendered_each(
                        g.children@,
                    )[q] == (c0 + frs.take(k + 1))[q] by {
                        if q < c0.len() + k {
                            assert(children_rendered_each(g.children@)[q]
                                == children_rendered_each(csb)[q]);
                            assert(children_rendered_each(csb)[q] == (c0 + frs.take(k))[q]);
                            if q < c0.len() {
                                assert((c0 + frs.take(k))[q] == c0[q]);
                                assert((c0 + frs.take(k + 1))[q] == c0[q]);
                            } else {
                                assert((c0 + frs.take(k))[q] == frs.take(k)[q - c0.len()]);
                                assert(frs.take(k)[q - c0.len()] == frs[q - c0.len()]);
                                assert((c0 + frs.take(k + 1))[q] == frs.take(k + 1)[q - c0.len()]);
                                assert(frs.take(k + 1)[q - c0.len()] == frs[q - c0.len()]);
                            }
                        } else {
                            assert(children_rendered_each(g.children@)[q] == element_rendered(
                                rect_name,
                                rect_attrs,
                            ));
                            assert((c0 + frs.take(k + 1))[q] == frs.take(k + 1)[k]);
                            assert(frs.take(k + 1)[k] == frs[k]);
                        }
                    }
                    assert(children_rendered_each(g.children@) =~= c0 + frs.take(k + 1));
                }
                col += 1;
            }
            proof {
                assert(row * size + size == (row + 1) * size) by (nonlinear_arith);
            }
            row += 1;
        }
        proof {
            assert(frs.take((size * size) as int) =~= frs);
        }
    }

    /// Paints all six faces as the standard unfolded net.
    pub fn draw_cube(&self, g: &mut Svg, color_scheme: &ColorScheme)
        requires
            self.wf(),
            color_scheme.wf(),
            self.cubie_size <= 4096,
            self.gap <= 4096,
        ensures
            final(g).name == old(g).name,
            final(g).attributes == old(g).attributes,
            children_rendered_each(final(g).children@) == children_rendered_each(
                old(g).children@,
            ) + self.net_rects_rendered(color_scheme.entries@),
    {
        let gap = self.gap;
        let size = self.size;
        let cubie_size = self.cubie_size;
        proof {
            lemma_mul_upper_bound(size as int, 16384, cubie_size as int, 4096);
            assert(self.grid().len() == 6);
            assert(self.state@.len() == 6);
            assert(forall|f: int|
                0 <= f < 6 ==> #[trigger] self.grid()[f] == matrix_view(&self.state@[f]));
            assert(forall|f: int| 0 <= f < 6 ==> is_square(#[trigger] self.grid()[f], size as int));
            assert(self.grid()[0] == matrix_view(&self.state@[0]));
            assert(is_square(matrix_view(&self.state@[0]), size as int));
            assert(self.grid()[1] == matrix_view(&self.state@[1]));
            assert(is_square(matrix_view(&self.state@[1]), size as int));
            assert(self.grid()[2] == matrix_view(&self.state@[2]));
            assert(is_square(matrix_view(&self.state@[2]), size as int));
            assert(self.grid()[3] == matrix_view(&self.state@[3]));
            assert(is_square(matrix_view(&self.state@[3]), size as int));
            assert(self.grid()[4] == matrix_view(&self.state@[4]));
            assert(is_square(matrix_view(&self.state@[4]), size as int));
            assert(self.grid()[5] == matrix_view(&self.state@[5]));
            assert(is_square(matrix_view(&self.state@[5]), size as int));
            assert forall|f: int, i: int, j: int|
                0 <= f < 6 && 0 <= i < size && 0 <= j < size implies 0 <= #[trigger] matrix_view(
                &self.state@[f],
            )[i][j] < 6 by {
                assert(is_square(self.grid()[f], size as int));
                assert(matrix_view(&self.state@[f])[i][j] == self.grid()[f][i][j]);
                assert(0 <= self.grid()[f][i][j] < 6);
            }
        }
        CubePuzzle::paint_cube_face(
            g,
            gap,
            2 * gap + size * cubie_size,
            size,
            cubie_size,
            &self.state[3],
            color_scheme,
        );
        CubePuzzle::paint_cube_face(
            g,
            2 * gap + size * cubie_size,
            3 * gap + 2 * (size * cubie_size),
            size,
            cubie_size,
            &self.state[4],
            color_scheme,
        );
        CubePuzzle::paint_cube_face(
            g,
            4 * gap + 3 * (size * cubie_size),
            2 * gap + size * cubie_size,
            size,
            cubie_size,
            &self.state[5],
            color_scheme,
        );
        CubePuzzle::paint_cube_face(
            g,
            3 * gap + 2 * (size * cubie_size),
            2 * gap + size * cubie_size,
            size,
            cubie_size,
            &self.state[0],
            color_scheme,
        );
        CubePuzzle::paint_cube_face(
            g,
            2 * gap + size * cubie_size,
            gap,
            size,
            cubie_size,
            &self.state[1],
            color_scheme,
        );
        CubePuzzle::paint_cube_face(
            g,
            2 * gap + size * cubie_size,
            2 * gap + size * cubie_size,
            size,
            cubie_size,
            &self.state[2],
            color_scheme,
        );
        proof {
            assert(children_rendered_each(g.children@) =~= children_rendered_each(
                old(g).children@,
            ) + self.net_rects_rendered(color_scheme.entries@));
        }
    }

    /// The rectangles of the whole net: the faces L, D, B, R, U, F in
    /// painting order, each at its place in the unfolded layout.
    pub open spec fn net_rects_rendered(&self, mapping: Seq<Option<Color>>) -> Seq<Seq<char>> {
        let n = self.size as nat;
        let c = self.cubie_size as nat;
        let gap = self.gap as nat;
        face_rects_rendered(gap, 2 * gap + n * c, n, c, self.grid()[3], mapping)
            + face_rects_rendered(2 * gap + n * c, 3 * gap + 2 * (n * c), n, c, self.grid()[4], mapping)
            + face_rects_rendered(4 * gap + 3 * (n * c), 2 * gap + n * c, n, c, self.grid()[5], mapping)
            + face_rects_rendered(3 * gap + 2 * (n * c), 2 * gap + n * c, n, c, self.grid()[0], mapping)
            + face_rects_rendered(2 * gap + n * c, gap, n, c, self.grid()[1], mapping)
            + face_rects_rendered(2 * gap + n * c, 2 * gap + n * c, n, c, self.grid()[2], mapping)
    }

    /// The pixel size of the drawn net: four faces wide, three faces tall.
    fn get_preferred_size(&self) -> (r: Dimension)
        requires
            self.wf(),
            self.cubie_size <= 4096,
            self.gap <= 4096,
        ensures
            r.width == (self.size * self.cubie_size + self.gap) * 4 + self.gap,
            r.height == (self.size * self.cubie_size + self.gap) * 3 + self.gap,
    {
        proof {
            lemma_mul_upper_bound(self.size as int, 16384, self.cubie_size as int, 4096);
        }
        let width = (self.size * self.cubie_size + self.gap) * 4 + self.gap;
        let height = (self.size * self.cubie_size + self.gap) * 3 + self.gap;
        Dimension { width, height }
    }

    /// Draws the cube as a complete SVG document, using the standard colour
    /// scheme.
    pub fn draw(&self) -> (r: Svg)
        requires
            self.wf(),
            self.cubie_size <= 4096,
            self.gap <= 4096,
        ensures
            ({
                let size = Dimension {
                    width: ((self.size * self.cubie_size + self.gap) * 4 + self.gap) as usize,
                    height: ((self.size * self.cubie_size + self.gap) * 3 + self.gap) as usize,
                };
                &&& r.name@ == "svg"@
                &&& pairs_view(r.attributes@) == Svg::init_pairs(
                    Seq::<(Seq<char>, Seq<char>)>::empty(),
                    size,
                )
                &&& children_rendered_each(r.children@) == self.net_rects_rendered(
                    crate::color::default_mapping(),
                )
            }),
    {
        let mut svg = Svg { name: String::new(), attributes: Vec::new(), children: Vec::new() };
        svg.init(self.get_preferred_size());
        let scheme = default_color_scheme();
        proof {
            assert(pairs_view(Seq::<(String, String)>::empty()) =~= Seq::<
                (Seq<char>, Seq<char>),
            >::empty());
            assert(children_rendered_each(Seq::<Element>::empty()) =~= Seq::<Seq<char>>::empty());
        }
        self.draw_cube(&mut svg, &scheme);
        proof {
            assert(children_rendered_each(svg.children@) =~= self.net_rects_rendered(
                crate::color::default_mapping(),
            ));
        }
        svg
    }
}

/// Applying `ms.push(m)` is applying `ms`, then `m`.
pub proof fn lemma_moves_applied_snoc(g: Seq<Seq<Seq<i8>>>, n: int, ms: Seq<Move>, m: Move)
    ensures
        moves_applied(g, n, ms.push(m)) == move_applied(moves_applied(g, n, ms), n, m),
    decreases ms.len(),
{
    if ms.len() == 0 {
        assert(ms.push(m).drop_first() =~= Seq::<Move>::empty());
        assert(ms.push(m)[0] == m);
        assert(moves_applied(g, n, ms.push(m)) == moves_applied(
            move_applied(g, n, m),
            n,
            Seq::<Move>::empty(),
        ));
        assert(moves_applied(move_applied(g, n, m), n, Seq::<Move>::empty()) == move_applied(
            g,
            n,
            m,
        ));
        assert(moves_applied(g, n, ms) == g);
    } else {
        assert(ms.push(m)[0] == ms[0]);
        assert(ms.push(m).drop_first() =~= ms.drop_first().push(m));
        lemma_moves_applied_snoc(move_applied(g, n, ms[0]), n, ms.drop_first(), m);
    }
}

} // verus!
