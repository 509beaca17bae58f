//! Ehrlich-Hopcroft-Reingold permutation generation.
//!
//! `ehr_gen` produces, for each of the n! - 1 steps, the index of the slot to
//! swap with slot 0; replaying the swaps over the identity visits every
//! permutation of n slots.  The engine keeps a counter array `c` that runs
//! like a factorial-base odometer and a shadow array `b` whose middle part is
//! reversed after every emission.

use vstd::prelude::*;
use crate::fact;
use crate::lemma_fact_pos;

verus! {

/// Well-formed counter array for size n: one counter per index up to n, each
/// bounded by its own index, with the sentinel at n never incremented.
pub open spec fn ehr_wf(c: Seq<u32>, n: nat) -> bool {
    &&& c.len() == n + 1
    &&& forall|j: int| 0 <= j <= n ==> (#[trigger] c[j] as int) <= j
    &&& c[n as int] == 0
}

/// First index at or after k whose counter is below its own index.
pub open spec fn ehr_find(c: Seq<u32>, k: nat) -> nat
    decreases c.len() - k,
{
    if k >= c.len() {
        k
    } else if (c[k as int] as int) < k {
        k
    } else {
        ehr_find(c, k + 1)
    }
}

/// The counter array with every position in [1, k) reset to zero.
pub open spec fn zero_below(c: Seq<u32>, k: nat) -> Seq<u32> {
    Seq::new(c.len(), |j: int| if 1 <= j < k { 0u32 } else { c[j] })
}

/// One odometer step: reset the cascaded counters, then increment counter k.
pub open spec fn ehr_step_c(c: Seq<u32>, k: nat) -> Seq<u32> {
    zero_below(c, k).update(k as int, (c[k as int] + 1) as u32)
}

/// The shadow array with its slice [1, k) reversed.
pub open spec fn rev_mid(b: Seq<u32>, k: nat) -> Seq<u32> {
    Seq::new(b.len(), |j: int| if 1 <= j < k { b[k - j] } else { b[j] })
}

/// The value of the counters 1..=m read as a factorial-base number:
/// counter j carries weight j!.
pub open spec fn vsum(c: Seq<u32>, m: nat) -> nat
    decreases m,
{
    if m == 0 {
        0
    } else {
        vsum(c, (m - 1) as nat) + (c[m as int] as nat) * fact(m)
    }
}

/// The swaps emitted by the odometer loop, at most `fuel` of them: stop when
/// the cascade reaches the sentinel, else emit the shadow value at the found
/// index and step.
pub open spec fn ehr_emit(b: Seq<u32>, c: Seq<u32>, fuel: nat) -> Seq<u32>
    decreases fuel,
{
    if fuel == 0 {
        Seq::empty()
    } else {
        let k = ehr_find(c, 1);
        if k + 1 >= c.len() {
            Seq::empty()
        } else {
            seq![b[k as int]] + ehr_emit(rev_mid(b, k), ehr_step_c(c, k), (fuel - 1) as nat)
        }
    }
}

/// The identity shadow array of length n.
pub open spec fn ehr_init_b(n: u32) -> Seq<u32> {
    Seq::new(n as nat, |j: int| j as u32)
}

/// The all-zero counter array of length n + 1.
pub open spec fn ehr_init_c(n: u32) -> Seq<u32> {
    Seq::new((n + 1) as nat, |j: int| 0u32)
}

/// The full swap sequence of the engine for size n.
pub open spec fn ehr_seq(n: u32) -> Seq<u32> {
    if n < 2 {
        Seq::empty()
    } else {
        ehr_emit(ehr_init_b(n), ehr_init_c(n), fact(n as nat))
    }
}

proof fn lemma_ehr_find_props(c: Seq<u32>, start: nat)
    requires
        1 <= start <= c.len(),
    ensures
        start <= ehr_find(c, start) <= c.len(),
        ehr_find(c, start) < c.len()
            ==> (c[ehr_find(c, start) as int] as int) < ehr_find(c, start),
        forall|j: int| start <= j < ehr_find(c, start) ==> (#[trigger] c[j] as int) >= j,
    decreases c.len() - start,
{
    if start < c.len() && !((c[start as int] as int) < start) {
        lemma_ehr_find_props(c, start + 1);
    }
}

/// With a well-formed counter array the cascade never passes the sentinel.
proof fn lemma_ehr_find_le_n(c: Seq<u32>, n: nat)
    requires
        ehr_wf(c, n),
        n >= 1,
    ensures
        1 <= ehr_find(c, 1) <= n,
        ehr_find(c, 1) < n ==> (c[ehr_find(c, 1) as int] as int) < ehr_find(c, 1),
        forall|j: int| 1 <= j < ehr_find(c, 1) ==> c[j] == j,
{
    lemma_ehr_find_props(c, 1);
    if ehr_find(c, 1) > n {
        assert((c[n as int] as int) >= n);
    }
}

proof fn lemma_vsum_zero(c: Seq<u32>, m: nat)
    requires
        forall|j: int| 1 <= j <= m ==> c[j] == 0,
    ensures
        vsum(c, m) == 0,
    decreases m,
{
    if m > 0 {
        lemma_vsum_zero(c, (m - 1) as nat);
    }
}

proof fn lemma_vsum_ub(c: Seq<u32>, m: nat)
    requires
        forall|j: int| 1 <= j <= m ==> (#[trigger] c[j] as int) <= j,
    ensures
        vsum(c, m) <= fact(m + 1) - 1,
    decreases m,
{
    lemma_fact_pos(m + 1);
    if m > 0 {
        lemma_vsum_ub(c, (m - 1) as nat);
        lemma_fact_pos(m);
        assert((c[m as int] as int) * fact(m) <= m * fact(m)) by (nonlinear_arith)
            requires
                (c[m as int] as int) <= m,
                fact(m) >= 1,
        ;
        assert(fact(m + 1) == (m + 1) * fact(m));
        assert((m + 1) * fact(m) == m * fact(m) + fact(m)) by (nonlinear_arith);
    }
}

proof fn lemma_vsum_full(c: Seq<u32>, m: nat)
    requires
        forall|j: int| 1 <= j <= m ==> (#[trigger] c[j] as int) == j,
    ensures
        vsum(c, m) == fact(m + 1) - 1,
    decreases m,
{
    if m == 0 {
        assert(fact(0) == 1);
        assert(fact(1) == 1);
    } else {
        lemma_vsum_full(c, (m - 1) as nat);
        assert((c[m as int] as nat) * fact(m) == m * fact(m)) by (nonlinear_arith)
            requires
                (c[m as int] as int) == m,
        ;
        assert(fact(m + 1) == (m + 1) * fact(m));
        assert((m + 1) * fact(m) == m * fact(m) + fact(m)) by (nonlinear_arith);
    }
}

proof fn lemma_vsum_agree(c1: Seq<u32>, c2: Seq<u32>, k: nat, m: nat)
    requires
        k <= m,
        forall|j: int| k < j <= m ==> c1[j] == c2[j],
    ensures
        vsum(c1, m) + vsum(c2, k) == vsum(c2, m) + vsum(c1, k),
    decreases m,
{
    if m > k {
        lemma_vsum_agree(c1, c2, k, (m - 1) as nat);
    }
}

/// One odometer step: well-formedness is preserved, the factorial-base value
/// increments by exactly one, and it was strictly below the maximum.
proof fn lemma_ehr_step(c: Seq<u32>, n: nat, k: nat)
    requires
        ehr_wf(c, n),
        2 <= n <= u32::MAX,
        k == ehr_find(c, 1),
        k < n,
    ensures
        ehr_wf(ehr_step_c(c, k), n),
        vsum(ehr_step_c(c, k), n) == vsum(c, n) + 1,
        vsum(c, n) < fact(n) - 1,
{
    lemma_ehr_find_le_n(c, n);
    let c2 = ehr_step_c(c, k);
    assert(c2.len() == n + 1);
    assert(c2[k as int] == (c[k as int] + 1) as u32);
    assert((c[k as int] + 1) as u32 == c[k as int] + 1);
    assert(forall|j: int| 0 <= j <= n ==> (#[trigger] c2[j] as int) <= j);
    assert(c2[n as int] == 0);

    lemma_vsum_zero(c2, (k - 1) as nat);
    lemma_vsum_full(c, (k - 1) as nat);
    assert(vsum(c, (k - 1) as nat) == fact(k) - 1);
    lemma_fact_pos(k);
    assert(vsum(c2, k) == ((c[k as int] + 1) as u32 as nat) * fact(k));
    assert(vsum(c, k) == fact(k) - 1 + (c[k as int] as nat) * fact(k));
    assert(((c[k as int] as nat) + 1) * fact(k) == (c[k as int] as nat) * fact(k) + fact(k))
        by (nonlinear_arith);
    assert(vsum(c2, k) == vsum(c, k) + 1);
    lemma_vsum_agree(c2, c, k, n);
    assert(vsum(c2, n) == vsum(c, n) + 1);

    lemma_vsum_ub(c2, (n - 1) as nat);
    assert(vsum(c2, n) == vsum(c2, (n - 1) as nat));
    lemma_fact_pos(n);
}

/// When the cascade reaches the sentinel, every counter is maxed and the
/// factorial-base value is n! - 1.
proof fn lemma_ehr_k_max(c: Seq<u32>, n: nat)
    requires
        ehr_wf(c, n),
        n >= 1,
        ehr_find(c, 1) >= n,
    ensures
        vsum(c, n) == fact(n) - 1,
{
    lemma_ehr_find_le_n(c, n);
    lemma_vsum_full(c, (n - 1) as nat);
    assert(vsum(c, n) == vsum(c, (n - 1) as nat));
}

/// The odometer emits exactly n! - 1 - value(c) swaps when given enough fuel.
proof fn lemma_ehr_emit_len(b: Seq<u32>, c: Seq<u32>, fuel: nat, n: nat)
    requires
        ehr_wf(c, n),
        2 <= n <= u32::MAX,
        fuel + vsum(c, n) >= fact(n) - 1,
    ensures
        ehr_emit(b, c, fuel).len() + vsum(c, n) == fact(n) - 1,
    decreases fuel,
{
    lemma_fact_pos(n);
    if fuel == 0 {
        lemma_vsum_ub(c, (n - 1) as nat);
        assert(vsum(c, n) == vsum(c, (n - 1) as nat));
    } else {
        let k = ehr_find(c, 1);
        lemma_ehr_find_le_n(c, n);
        if k + 1 >= c.len() {
            lemma_ehr_k_max(c, n);
        } else {
            lemma_ehr_step(c, n, k);
            lemma_ehr_emit_len(rev_mid(b, k), ehr_step_c(c, k), (fuel - 1) as nat, n);
        }
    }
}

fn reversed_prefix(b: &Vec<u32>, k: usize) -> (r: Vec<u32>)
    requires
        1 <= k < b@.len(),
    ensures
        r@ == rev_mid(b@, k as nat),
{
    let mut r: Vec<u32> = Vec::new();
    r.push(b[0]);
    let mut j: usize = 1;
    while j < k
        invariant
            1 <= j <= k < b@.len(),
            r@.len() == j,
            forall|t: int| 0 <= t < j
                ==> r@[t] == (if 1 <= t < k { b@[k - t] } else { b@[t] }),
        decreases k - j,
    {
        r.push(b[k - j]);
        j = j + 1;
    }
    while j < b.len()
        invariant
            1 <= k <= j <= b@.len(),
            r@.len() == j,
            forall|t: int| 0 <= t < j
                ==> r@[t] == (if 1 <= t < k { b@[k - t] } else { b@[t] }),
        decreases b@.len() - j,
    {
        r.push(b[j]);
        j = j + 1;
    }
    assert(r@ =~= rev_mid(b@, k as nat));
    r
}

/// Generate the swap-with-slot-0 indices of the EHR permutation order.
pub fn ehr_gen(n: u32) -> (r: Vec<u32>)
    ensures
        r@ == ehr_seq(n),
{
    let mut r: Vec<u32> = Vec::new();
    if n < 2 {
        assert(r@ =~= ehr_seq(n));
        return r;
    }
    let nn = n as usize;
    let mut b: Vec<u32> = Vec::new();
    let mut i: usize = 0;
    while i < nn
        invariant
            i <= nn,
            nn == n as usize,
            b@.len() == i,
            forall|t: int| 0 <= t < i ==> b@[t] == t as u32,
        decreases nn - i,
    {
        b.push(i as u32);
        i = i + 1;
    }
    assert(b@ =~= ehr_init_b(n));
    let mut c: Vec<u32> = Vec::new();
    let mut i: usize = 0;
    while i < nn
        invariant
            i <= nn,
            nn == n as usize,
            c@.len() == i,
            forall|t: int| 0 <= t < i ==> c@[t] == 0u32,
        decreases nn - i,
    {
        c.push(0);
        i = i + 1;
    }
    c.push(0);
    assert(c@ =~= ehr_init_c(n));

    let ghost total = fact(n as nat);
    let ghost mut rem: nat = total;
    proof {
        lemma_fact_pos(n as nat);
        lemma_vsum_zero(c@, n as nat);
        assert(r@ + ehr_emit(b@, c@, rem) =~= ehr_seq(n));
    }
    loop
        invariant
            2 <= n,
            nn == n as usize,
            b@.len() == n as nat,
            ehr_wf(c@, n as nat),
            rem + vsum(c@, n as nat) == total,
            total == fact(n as nat),
            ehr_seq(n) == r@ + ehr_emit(b@, c@, rem),
        ensures
            r@ == ehr_seq(n),
        decreases rem,
    {
        let mut k: usize = 1;
        while k < nn && c[k] == k as u32
            invariant
                1 <= k <= nn,
                nn == n as usize,
                c@.len() == n as nat + 1,
                ehr_find(c@, 1) == ehr_find(c@, k as nat),
            decreases nn - k,
        {
            k = k + 1;
        }
        proof {
            assert(ehr_find(c@, k as nat) == k as nat) by {
                if k < nn {
                    assert((c@[k as int] as int) <= k);
                    assert(c@[k as int] != k as u32);
                } else {
                    assert(c@[k as int] == 0);
                }
            }
        }
        if k == nn {
            proof {
                assert(ehr_emit(b@, c@, rem) =~= Seq::<u32>::empty());
                assert(r@ =~= ehr_seq(n));
            }
            break;
        }
        proof {
            lemma_ehr_step(c@, n as nat, k as nat);
            assert(rem >= 1);
        }
        let ghost old_b = b@;
        let ghost old_c = c@;
        let ghost old_r = r@;
        let ghost old_rem = rem;
        let mut j: usize = 1;
        while j < k
            invariant
                1 <= j <= k,
                k < c@.len(),
                c@.len() == old_c.len(),
                forall|t: int| 0 <= t < c@.len()
                    ==> c@[t] == (if 1 <= t < j { 0u32 } else { old_c[t] }),
            decreases k - j,
        {
            c[j] = 0;
            j = j + 1;
        }
        let ck = c[k];
        assert(ck == old_c[k as int]);
        assert((ck as int) < k);
        c[k] = ck + 1;
        assert(c@ =~= ehr_step_c(old_c, k as nat));
        r.push(b[k]);
        let b2 = reversed_prefix(&b, k);
        b = b2;
        proof {
            rem = (rem - 1) as nat;
            assert(ehr_emit(old_b, old_c, old_rem)
                == seq![old_b[k as int]] + ehr_emit(b@, c@, rem));
            assert(ehr_seq(n) == old_r + (seq![old_b[k as int]] + ehr_emit(b@, c@, rem)));
            assert(r@ + ehr_emit(b@, c@, rem)
                =~= old_r + (seq![old_b[k as int]] + ehr_emit(b@, c@, rem)));
        }
    }
    r
}

proof fn lemma_ehr_emit_range(b: Seq<u32>, c: Seq<u32>, fuel: nat, n: nat)
    requires
        b.len() == n,
        forall|j: int| 1 <= j < n ==> 1 <= #[trigger] b[j] < n,
        ehr_wf(c, n),
        2 <= n <= u32::MAX,
    ensures
        forall|i: int| 0 <= i < ehr_emit(b, c, fuel).len()
            ==> 1 <= #[trigger] ehr_emit(b, c, fuel)[i] < n,
    decreases fuel,
{
    if fuel > 0 {
        let k = ehr_find(c, 1);
        lemma_ehr_find_le_n(c, n);
        if k + 1 < c.len() {
            lemma_ehr_step(c, n, k);
            let b2 = rev_mid(b, k);
            assert(forall|j: int| 1 <= j < n ==> 1 <= #[trigger] b2[j] < n);
            lemma_ehr_emit_range(b2, ehr_step_c(c, k), (fuel - 1) as nat, n);
            assert(1 <= b[k as int] < n);
            let e = ehr_emit(b, c, fuel);
            let rest = ehr_emit(b2, ehr_step_c(c, k), (fuel - 1) as nat);
            assert forall|i: int| 0 <= i < e.len() implies 1 <= #[trigger] e[i] < n by {
                if i == 0 {
                    assert(e[0] == b[k as int]);
                } else {
                    assert(e[i] == rest[i - 1]);
                }
            }
        }
    }
}

/// Every emitted index names a slot other than the anchor: it lies in [1, n).
pub proof fn lemma_ehr_range(n: u32)
    ensures
        forall|i: int| 0 <= i < ehr_seq(n).len() ==> 1 <= #[trigger] ehr_seq(n)[i] < n,
{
    if n >= 2 {
        let b = ehr_init_b(n);
        let c = ehr_init_c(n);
        lemma_vsum_zero(c, n as nat);
        lemma_ehr_emit_range(b, c, fact(n as nat), n as nat);
    }
}

/// Counting law: the engine emits one swap fewer than there are permutations
/// of n slots, for every n.
pub proof fn lemma_ehr_count(n: u32)
    ensures
        ehr_seq(n).len() + 1 == fact(n as nat),
{
    if n < 2 {
        assert(fact(0) == 1);
        assert(fact(1) == 1);
    } else {
        let c = ehr_init_c(n);
        assert(ehr_wf(c, n as nat));
        lemma_vsum_zero(c, n as nat);
        lemma_ehr_emit_len(ehr_init_b(n), c, fact(n as nat), n as nat);
    }
}

} // verus!
