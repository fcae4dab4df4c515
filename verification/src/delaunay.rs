//! Divide step of the divide-and-conquer triangulation: splits a grid of
//! point indices into a left and a right section down the middle column.

use vstd::prelude::*;

verus! {

/// Ordering of flattened row-major indices across full rows.
proof fn lemma_row_index_bound(z2: int, x2: int, z: int, m: int)
    requires
        0 <= z2 < z,
        0 <= x2 < m,
    ensures
        z2 * m + x2 < z * m,
{
    assert(z2 * m + x2 < z * m) by (nonlinear_arith)
        requires
            0 <= z2 < z,
            0 <= x2 < m,
    ;
}

/// Splits `nb_z` rows of `nb_x` point indices into the columns left of the
/// middle and the columns from the middle on, row by row.
pub fn divide(points: &Vec<usize>, nb_x: usize, nb_z: usize) -> (r: (Vec<usize>, Vec<usize>))
    requires
        nb_z * nb_x <= points@.len(),
    ensures
        r.0@.len() == nb_z * ((nb_x + 1) / 2),
        r.1@.len() == nb_z * (nb_x - (nb_x + 1) / 2),
        forall|z: int, x: int|
            0 <= z < nb_z && 0 <= x < ((nb_x + 1) / 2) ==> #[trigger] r.0@[z * ((nb_x + 1) / 2)
                + x] == points@[z * nb_x + x],
        forall|z: int, x: int|
            0 <= z < nb_z && ((nb_x + 1) / 2) <= x < nb_x ==> #[trigger] r.1@[z * (nb_x - (nb_x
                + 1) / 2) + (x - (nb_x + 1) / 2)] == points@[z * nb_x + x],
{
    let plen = points.len();
    let mut left: Vec<usize> = Vec::new();
    let mut right: Vec<usize> = Vec::new();
    let middle = nb_x / 2 + (if nb_x % 2 == 0 {
        0
    } else {
        1
    });
    proof {
        assert(middle == (nb_x + 1) / 2);
    }
    let ghost m = middle as int;
    let ghost w = (nb_x - middle) as int;
    let mut z: usize = 0;
    while z < nb_z
        invariant
            z <= nb_z,
            m == middle as int,
            w == nb_x - m,
            0 <= m <= nb_x,
            nb_z * nb_x <= plen,
            plen == points@.len(),
            left@.len() == z * m,
            right@.len() == z * w,
            forall|z2: int, x: int|
                0 <= z2 < z && 0 <= x < m ==> #[trigger] left@[z2 * m + x] == points@[z2 * nb_x
                    + x],
            forall|z2: int, x: int|
                0 <= z2 < z && m <= x < nb_x ==> #[trigger] right@[z2 * w + (x - m)]
                    == points@[z2 * nb_x + x],
        decreases nb_z - z,
    {
        let mut x: usize = 0;
        while x < nb_x
            invariant
                z < nb_z,
                x <= nb_x,
                m == middle as int,
                w == nb_x - m,
                0 <= m <= nb_x,
                nb_z * nb_x <= plen,
                plen == points@.len(),
                left@.len() == z * m + (if x < middle {
                    x as int
                } else {
                    m
                }),
                right@.len() == z * w + (if x < middle {
                    0int
                } else {
                    x - m
                }),
                forall|z2: int, x2: int|
                    0 <= z2 < z && 0 <= x2 < m ==> #[trigger] left@[z2 * m + x2] == points@[z2
                        * nb_x + x2],
                forall|z2: int, x2: int|
                    0 <= z2 < z && m <= x2 < nb_x ==> #[trigger] right@[z2 * w + (x2 - m)]
                        == points@[z2 * nb_x + x2],
                forall|x2: int|
                    0 <= x2 < x && x2 < m ==> #[trigger] left@[z * m + x2] == points@[z * nb_x
                        + x2],
                forall|x2: int|
                    m <= x2 < x ==> #[trigger] right@[z * w + (x2 - m)] == points@[z * nb_x + x2],
            decreases nb_x - x,
        {
            proof {
                assert(z * nb_x + x < nb_z * nb_x) by (nonlinear_arith)
                    requires
                        z < nb_z,
                        x < nb_x,
                        0 <= z,
                        0 <= x,
                ;
                assert(z * nb_x + x <= usize::MAX);
            }
            let idx = z * nb_x + x;
            let ghost left_pre = left@;
            let ghost right_pre = right@;
            if x < middle {
                left.push(points[idx]);
            } else {
                right.push(points[idx]);
            }
            proof {
                assert forall|z2: int, x2: int| 0 <= z2 < z && 0 <= x2 < m implies #[trigger]
                    left@[z2 * m + x2] == points@[z2 * nb_x + x2] by {
                    lemma_row_index_bound(z2, x2, z as int, m);
                    assert(left@[z2 * m + x2] == left_pre[z2 * m + x2]);
                }
                assert forall|z2: int, x2: int| 0 <= z2 < z && m <= x2 < nb_x implies #[trigger]
                    right@[z2 * w + (x2 - m)] == points@[z2 * nb_x + x2] by {
                    lemma_row_index_bound(z2, x2 - m, z as int, w);
                    assert(right@[z2 * w + (x2 - m)] == right_pre[z2 * w + (x2 - m)]);
                }
            }
            x += 1;
        }
        proof {
            assert(z * m + m == (z + 1) * m) by (nonlinear_arith);
            assert(z * w + w == (z + 1) * w) by (nonlinear_arith);
        }
        z += 1;
    }
    (left, right)
}

} // verus!
