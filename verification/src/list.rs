//! Two-sum lookup over an integer slice.

use vstd::prelude::*;
use vstd::pervasive::unreached;

verus! {

/// Indices `i < j` pick two distinct elements of `s` that sum to `target`
/// (summed without overflow, as mathematical integers).
pub open spec fn sums_to(s: Seq<i32>, target: i32, i: int, j: int) -> bool {
    0 <= i < j < s.len() && s[i] + s[j] == target
}

/// Returns the indices of the two distinct elements of `nums` that sum to
/// `target`, lower index first. The second index returned is the earliest
/// index that completes any such pair, and the first is its earliest partner;
/// when the input has exactly one answer, that is the answer.
pub fn to_sum(nums: &[i32], target: i32) -> (r: (i32, i32))
    requires
        exists|i: int, j: int| sums_to(nums@, target, i, j),
        nums@.len() <= 0x7fff_ffff,
    ensures
        0 <= r.0 < r.1 < nums@.len(),
        nums@[r.0 as int] + nums@[r.1 as int] == target,
        forall|i: int, j: int| sums_to(nums@, target, i, j) ==> r.1 <= j,
        forall|i: int| sums_to(nums@, target, i, r.1 as int) ==> r.0 <= i,
{
    let len = nums.len();
    let mut j: usize = 0;
    while j < len
        invariant
            len == nums@.len(),
            len <= 0x7fff_ffff,
            j <= len,
            exists|i2: int, j2: int| sums_to(nums@, target, i2, j2),
            forall|i2: int, j2: int| sums_to(nums@, target, i2, j2) ==> j <= j2,
        decreases len - j,
    {
        let mut i: usize = 0;
        while i < j
            invariant
                len == nums@.len(),
                len <= 0x7fff_ffff,
                i <= j < len,
                forall|i2: int, j2: int| sums_to(nums@, target, i2, j2) ==> j <= j2,
                forall|i2: int| sums_to(nums@, target, i2, j as int) ==> i <= i2,
            decreases j - i,
        {
            if nums[i] as i64 + nums[j] as i64 == target as i64 {
                return (i as i32, j as i32);
            }
            i = i + 1;
        }
        j = j + 1;
    }
    proof {
        let (i2, j2) = choose|i2: int, j2: int| sums_to(nums@, target, i2, j2);
        assert(false);
    }
    unreached()
}

} // verus!
