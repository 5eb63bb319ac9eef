//! Rotation of a single face's square facelet grid by a quarter turn.

use vstd::prelude::*;

verus! {

/// The square matrix `m` rotated 90 degrees clockwise: the cell at row `i`,
/// column `j` of the result is the cell at row `n-1-j`, column `i` of `m`
/// (equivalently: transpose, then mirror every row horizontally).
pub open spec fn rotated_cw(m: Seq<Seq<i8>>, n: int) -> Seq<Seq<i8>> {
    Seq::new(n as nat, |i: int| Seq::new(n as nat, |j: int| m[n - 1 - j][i]))
}

/// The square matrix `m` rotated 90 degrees counter-clockwise: the cell at
/// row `i`, column `j` of the result is the cell at row `j`, column `n-1-i`
/// of `m` (equivalently: transpose, then mirror the rows' order vertically).
pub open spec fn rotated_ccw(m: Seq<Seq<i8>>, n: int) -> Seq<Seq<i8>> {
    Seq::new(n as nat, |i: int| Seq::new(n as nat, |j: int| m[j][n - 1 - i]))
}

/// An `n` by `n` grid of facelet indices.
pub open spec fn is_square(m: Seq<Seq<i8>>, n: int) -> bool {
    &&& m.len() == n
    &&& forall|i: int| 0 <= i < n ==> (#[trigger] m[i]).len() == n
}

/// The view of a vector-of-vectors matrix as a sequence of rows.
pub open spec fn matrix_view(m: &Vec<Vec<i8>>) -> Seq<Seq<i8>> {
    Seq::new(m@.len(), |i: int| m@[i]@)
}

/// Replaces the square matrix with its quarter-turn rotation, clockwise or
/// counter-clockwise.
pub fn rotate_2d_matrix(matrix: &mut Vec<Vec<i8>>, size: usize, clockwise: bool)
    requires
        is_square(matrix_view(old(matrix)), size as int),
    ensures
        is_square(matrix_view(final(matrix)), size as int),
        clockwise ==> matrix_view(final(matrix)) == rotated_cw(
            matrix_view(old(matrix)),
            size as int,
        ),
        !clockwise ==> matrix_view(final(matrix)) == rotated_ccw(
            matrix_view(old(matrix)),
            size as int,
        ),
{
    let ghost m0 = matrix_view(matrix);
    let mut rotated: Vec<Vec<i8>> = Vec::new();
    let mut i: usize = 0;
    while i < size
        invariant
            is_square(m0, size as int),
            matrix_view(matrix) == m0,
            i <= size,
            rotated@.len() == i,
            forall|a: int| #![auto]
                0 <= a < i ==> rotated@[a]@ == (if clockwise {
                    rotated_cw(m0, size as int)[a]
                } else {
                    rotated_ccw(m0, size as int)[a]
                }),
        decreases size - i,
    {
        let mut row: Vec<i8> = Vec::new();
        let mut j: usize = 0;
        while j < size
            invariant
                is_square(m0, size as int),
                i < size,
                j <= size,
                matrix_view(matrix) == m0,
                row@.len() == j,
                forall|b: int| #![auto]
                    0 <= b < j ==> row@[b] == (if clockwise {
                        rotated_cw(m0, size as int)[i as int][b]
                    } else {
                        rotated_ccw(m0, size as int)[i as int][b]
                    }),
            decreases size - j,
        {
            proof {
                assert(matrix@.len() == m0.len());
                assert(m0[size - 1 - j as int].len() == size);
                assert(m0[j as int].len() == size);
                assert(matrix@[size - 1 - j as int]@ == m0[size - 1 - j as int]);
                assert(matrix@[j as int]@ == m0[j as int]);
            }
            let cell = if clockwise {
                matrix[size - 1 - j][i]
            } else {
                matrix[j][size - 1 - i]
            };
            row.push(cell);
            j += 1;
        }
        rotated.push(row);
        i += 1;
    }
    *matrix = rotated;
    proof {
        if clockwise {
            assert(matrix_view(matrix) =~~= rotated_cw(m0, size as int));
        } else {
            assert(matrix_view(matrix) =~~= rotated_ccw(m0, size as int));
        }
    }
}

} // verus!
