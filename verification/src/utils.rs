//! In-place square-matrix rotation.

use vstd::prelude::*;

verus! {

/// `m` is a square matrix: every row is as long as the number of rows.
pub open spec fn is_square(m: Seq<Vec<i32>>) -> bool {
    forall|i: int| 0 <= i < m.len() ==> (#[trigger] m[i])@.len() == m.len()
}

/// Rotates a square matrix a quarter turn clockwise: the cell at row `i`,
/// column `j` afterwards holds what row `n - 1 - j`, column `i` held before.
pub fn rotate_square_matrix_cw_90(square: &mut Vec<Vec<i32>>)
    requires
        is_square(old(square)@),
    ensures
        final(square)@.len() == old(square)@.len(),
        is_square(final(square)@),
        forall|i: int, j: int|
            #![trigger final(square)@[i]@[j]]
            0 <= i < old(square)@.len() && 0 <= j < old(square)@.len()
                ==> final(square)@[i]@[j] == old(square)@[old(square)@.len() - 1 - j]@[i],
{
    let n = square.len();
    let mut rotated: Vec<Vec<i32>> = Vec::new();
    let mut i: usize = 0;
    while i < n
        invariant
            n == square@.len(),
            is_square(square@),
            i <= n,
            rotated@.len() == i,
            forall|r: int| 0 <= r < i ==> (#[trigger] rotated@[r])@.len() == n,
            forall|r: int, c: int|
                #![trigger rotated@[r]@[c]]
                0 <= r < i && 0 <= c < n ==> rotated@[r]@[c] == square@[n - 1 - c]@[r],
        decreases n - i,
    {
        let mut row: Vec<i32> = Vec::new();
        let mut j: usize = 0;
        while j < n
            invariant
                n == square@.len(),
                is_square(square@),
                i < n,
                j <= n,
                row@.len() == j,
                forall|c: int| 0 <= c < j ==> (#[trigger] row@[c]) == square@[n - 1 - c]@[i as int],
            decreases n - j,
        {
            row.push(square[n - 1 - j][i]);
            j = j + 1;
        }
        rotated.push(row);
        i = i + 1;
    }
    *square = rotated;
}

} // verus!
