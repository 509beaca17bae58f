//! Minimal-change (Gray-code) enumeration of combinatorial objects.
//!
//! Each engine produces the full edit sequence for a problem size: the bit to
//! flip (binary reflected Gray code), the slot to swap with the anchor or the
//! adjacent pair to swap (permutations), or the element to relocate between
//! blocks (set bipartitions and partitions).  Callers own the object and
//! replay the edits; the engines never touch caller state.

use vstd::prelude::*;

pub mod combin;
pub mod ehr;
pub mod gray_code;
pub mod set_bipart;
pub mod set_partition;
pub mod sjt;
pub mod skeleton;

verus! {

/// n! as a mathematical value.
pub open spec fn fact(n: nat) -> nat
    decreases n,
{
    if n == 0 {
        1
    } else {
        n * fact((n - 1) as nat)
    }
}

/// 2^n as a mathematical value.
pub open spec fn pow2(n: nat) -> nat
    decreases n,
{
    if n == 0 {
        1
    } else {
        2 * pow2((n - 1) as nat)
    }
}

/// Factorials are at least 1.
pub proof fn lemma_fact_pos(n: nat)
    ensures
        fact(n) >= 1,
    decreases n,
{
    if n > 0 {
        lemma_fact_pos((n - 1) as nat);
        assert(n * fact((n - 1) as nat) >= 1) by (nonlinear_arith)
            requires
                n >= 1,
                fact((n - 1) as nat) >= 1,
        ;
    }
}

/// Powers of two are at least 1.
pub proof fn lemma_pow2_pos(n: nat)
    ensures
        pow2(n) >= 1,
    decreases n,
{
    if n > 0 {
        lemma_pow2_pos((n - 1) as nat);
    }
}

} // verus!
