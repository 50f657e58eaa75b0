//! Finding where a key belongs in a node's ascending key sequence.
use vstd::prelude::*;

verus! {

/// Keys in strictly ascending order.
pub open spec fn strictly_ascending(s: Seq<i32>) -> bool {
    forall|i: int, j: int| 0 <= i < j < s.len() ==> #[trigger] s[i] < #[trigger] s[j]
}

/// Keys in non-decreasing order.
pub open spec fn ascending(s: Seq<i32>) -> bool {
    forall|i: int, j: int| 0 <= i < j < s.len() ==> #[trigger] s[i] <= #[trigger] s[j]
}

/// The index of the first element of `s` that is not less than `k`
/// (`s.len()` when there is none).
pub open spec fn lower_bound(s: Seq<i32>, k: i32) -> int
    decreases s.len(),
{
    if s.len() == 0 {
        0
    } else if s[0] >= k {
        0
    } else {
        1 + lower_bound(s.drop_first(), k)
    }
}

/// Any index before which every element is less than `k`, and at which the
/// element (if any) is not less than `k`, is the lower bound.
pub proof fn lemma_lower_bound_unique(s: Seq<i32>, k: i32, r: int)
    requires
        0 <= r <= s.len(),
        forall|j: int| 0 <= j < r ==> s[j] < k,
        r < s.len() ==> s[r] >= k,
    ensures
        lower_bound(s, k) == r,
    decreases s.len(),
{
    if s.len() > 0 && r > 0 {
        lemma_lower_bound_unique(s.drop_first(), k, r - 1);
    }
}

/// Returns the position at which `nkey` belongs in the ascending slice `v`:
/// the index of the first element that is not less than `nkey`, or `v.len()`
/// when every element is less. An empty slice gives 0.
pub fn binary_search(v: &[i32], nkey: i32) -> (r: usize)
    requires
        ascending(v@),
    ensures
        r as int == lower_bound(v@, nkey),
        r <= v@.len(),
        forall|j: int| 0 <= j < r ==> v@[j] < nkey,
        forall|j: int| r <= j < v@.len() ==> v@[j] >= nkey,
{
    let mut l: usize = 0;
    let mut r: usize = v.len();
    while l < r
        invariant
            ascending(v@),
            l <= r <= v@.len(),
            forall|j: int| 0 <= j < l ==> v@[j] < nkey,
            forall|j: int| r <= j < v@.len() ==> v@[j] >= nkey,
        decreases r - l,
    {
        let mid: usize = l + (r - l) / 2;
        if v[mid] < nkey {
            assert forall|j: int| 0 <= j <= mid implies v@[j] < nkey by {
                if j < mid {
                    assert(v@[j] <= v@[mid as int]);
                }
            }
            l = mid + 1;
        } else {
            assert forall|j: int| mid <= j < v@.len() implies v@[j] >= nkey by {
                if j > mid {
                    assert(v@[mid as int] <= v@[j]);
                }
            }
            r = mid;
        }
    }
    proof {
        lemma_lower_bound_unique(v@, nkey, l as int);
    }
    l
}

} // verus!
