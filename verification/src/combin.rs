//! Binomial coefficients.
//!
//! The counting utility used by callers to presize buffers for
//! combination enumeration.

use vstd::prelude::*;

verus! {

/// The number of ways to choose k elements out of n, by Pascal's rule;
/// degenerate parameters (k == 0 or k >= n) count as 1.
pub open spec fn spec_comb(n: nat, k: nat) -> nat
    decreases n,
{
    if k >= n || k == 0 {
        1
    } else if k == 1 || k == n - 1 {
        n
    } else {
        spec_comb((n - 1) as nat, (k - 1) as nat) + spec_comb((n - 1) as nat, k)
    }
}

/// Calculate the number of combinations of k elements from a set of n.
///
/// The precondition is exactly the machine limit: the result must fit in
/// `u64`; every intermediate value is bounded by the result.
pub fn comb(n: u32, k: u32) -> (r: u64)
    requires
        spec_comb(n as nat, k as nat) <= u64::MAX,
    ensures
        r == spec_comb(n as nat, k as nat),
{
    if k >= n || k == 0 {
        1
    } else {
        comb_recur(n, k)
    }
}

fn comb_recur(n: u32, k: u32) -> (r: u64)
    requires
        1 <= k < n,
        spec_comb(n as nat, k as nat) <= u64::MAX,
    ensures
        r == spec_comb(n as nat, k as nat),
    decreases n,
{
    if k == 1 || k == n - 1 {
        n as u64
    } else {
        let a = comb_recur(n - 1, k - 1);
        let b = comb_recur(n - 1, k);
        a + b
    }
}

} // verus!
