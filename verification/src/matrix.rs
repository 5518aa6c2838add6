//! A standalone symmetry test for matrices given as nested vectors.
use vstd::prelude::*;

verus! {

/// A nonempty matrix whose rows all have the side's length and whose cells
/// agree with their mirrors across the diagonal.
pub open spec fn spec_matrix_symmetric(m: Seq<Seq<u16>>) -> bool {
    &&& m.len() > 0
    &&& forall|i: int| 0 <= i < m.len() ==> (#[trigger] m[i]).len() == m.len()
    &&& forall|i: int, j: int| 0 <= j < i < m.len() ==> m[i][j] == m[j][i]
}

/// Whether the matrix is square and symmetric: true exactly when it has at
/// least one row, every row is as long as the matrix is tall, and every
/// cell equals its mirror across the diagonal.
pub fn matrix_is_symmetric(matrix: &Vec<Vec<u16>>) -> (r: bool)
    requires
        (matrix.deep_view().len() > 0 && matrix.deep_view()[0].len() == matrix.deep_view().len())
            ==> forall|i: int|
            0 <= i < matrix.deep_view().len() ==> (#[trigger] matrix.deep_view()[i]).len()
                == matrix.deep_view().len(),
    ensures
        r == spec_matrix_symmetric(matrix.deep_view()),
{
    let ghost m = matrix.deep_view();
    let size = matrix.len();
    proof {
        assert(m.len() == matrix@.len());
    }
    if size == 0 {
        return false;
    }
    if matrix[0].len() != size {
        proof {
            assert(matrix@[0]@ == m[0]);
        }
        return false;
    }
    proof {
        assert(m[0].len() == m.len());
    }
    let mut i: usize = 1;
    while i < size
        invariant
            m == matrix.deep_view(),
            size == m.len(),
            1 <= i <= size,
            forall|k: int| 0 <= k < m.len() ==> (#[trigger] m[k]).len() == m.len(),
            forall|a: int, b: int| 0 <= b < a < i ==> m[a][b] == m[b][a],
        decreases size - i,
    {
        let mut j: usize = 0;
        while j < i
            invariant
                m == matrix.deep_view(),
                size == m.len(),
                1 <= i < size,
                j <= i,
                forall|k: int| 0 <= k < m.len() ==> (#[trigger] m[k]).len() == m.len(),
                forall|a: int, b: int| 0 <= b < a < i ==> m[a][b] == m[b][a],
                forall|b: int| 0 <= b < j ==> m[i as int][b] == m[b][i as int],
            decreases i - j,
        {
            proof {
                assert(matrix@[i as int]@ == m[i as int]);
                assert(matrix@[j as int]@ == m[j as int]);
            }
            if matrix[i][j] != matrix[j][i] {
                return false;
            }
            j = j + 1;
        }
        i = i + 1;
    }
    true
}

} // verus!
