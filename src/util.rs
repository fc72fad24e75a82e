use vstd::prelude::*;

verus! {

/// Every element is strictly smaller than the next one.
pub open spec fn strictly_ascending(a: Seq<i64>) -> bool {
    forall|i: int, j: int| 0 <= i < j < a.len() ==> a[i] < a[j]
}

/// Checks that the slice is sorted and holds no duplicates.
pub fn is_sorted(a: &[i64]) -> (r: bool)
    ensures
        r == strictly_ascending(a@),
{
    let n = a.len();
    if n < 2 {
        return true;
    }
    let mut k: usize = 1;
    while k < n
        invariant
            1 <= k <= n,
            n == a@.len(),
            strictly_ascending(a@.subrange(0, k as int)),
        decreases n - k,
    {
        if a[k - 1] >= a[k] {
            return false;
        }
        assert(strictly_ascending(a@.subrange(0, k as int + 1))) by {
            assert forall|i: int, j: int| 0 <= i < j < k + 1 implies a@[i] < a@[j] by {
                if j < k {
                    assert(a@.subrange(0, k as int)[i] < a@.subrange(0, k as int)[j]);
                } else if i < k - 1 {
                    assert(a@.subrange(0, k as int)[i] < a@.subrange(0, k as int)[k - 1]);
                }
            }
        }
        k = k + 1;
    }
    assert(a@.subrange(0, n as int) =~= a@);
    true
}

} // verus!
