//! Starting-point module: a verified Fibonacci function.

use vstd::prelude::*;

verus! {

/// The Fibonacci sequence, 1-based: fib(1) == fib(2) == 1.
pub open spec fn spec_fib(n: nat) -> nat
    decreases n,
{
    if n == 0 {
        0
    } else if n <= 2 {
        1
    } else {
        spec_fib((n - 1) as nat) + spec_fib((n - 2) as nat)
    }
}

/// The sequence never decreases.
proof fn lemma_fib_mono(a: nat, b: nat)
    requires
        a <= b,
    ensures
        spec_fib(a) <= spec_fib(b),
    decreases b,
{
    if a < b && b > 2 {
        lemma_fib_mono(a, (b - 1) as nat);
    }
}

/// Calculate the n-th Fibonacci number (1-based).
///
/// The precondition is exactly the machine limit: the result itself must fit
/// in `u64` (so `n` can be at most 93), and every intermediate value is
/// bounded by the result.
pub fn fib(n: u32) -> (r: u64)
    requires
        1 <= n,
        spec_fib(n as nat) <= u64::MAX,
    ensures
        r == spec_fib(n as nat),
{
    let mut a: u64 = 0;
    let mut b: u64 = 1;
    let mut i: u32 = 1;
    while i < n
        invariant
            1 <= i <= n,
            spec_fib(n as nat) <= u64::MAX,
            a == spec_fib((i - 1) as nat),
            b == spec_fib(i as nat),
        decreases n - i,
    {
        proof {
            lemma_fib_mono((i + 1) as nat, n as nat);
        }
        let next: u64 = a + b;
        a = b;
        b = next;
        i = i + 1;
    }
    b
}

} // verus!
