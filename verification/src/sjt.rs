//! Steinhaus-Johnson-Trotter adjacent-transposition permutation generation.
//!
//! Both engines emit positions x meaning "swap slots x and x + 1".
//! `plain_changes` emits n! - 1 swaps and visits every permutation once;
//! `sjt_gen` is the cyclic variant, emitting n! swaps and returning to the
//! starting permutation.  Both weave sweeps of the largest element between
//! the emissions of the engine for n - 1.

use vstd::prelude::*;
use crate::fact;
use crate::lemma_fact_pos;

verus! {

/// Length of one sweep of the largest element: n - 1 adjacent swaps.
pub open spec fn run_len(n: u32) -> nat {
    if n == 0 {
        0
    } else {
        (n - 1) as nat
    }
}

/// A descending sweep: positions n-2, n-3, ..., 0.
pub open spec fn down_run(n: u32) -> Seq<u32> {
    Seq::new(run_len(n), |t: int| (n - 2 - t) as u32)
}

/// An ascending sweep: positions 0, 1, ..., n-2.
pub open spec fn up_run(n: u32) -> Seq<u32> {
    Seq::new(run_len(n), |t: int| t as u32)
}

/// Cyclic weave: for each pair of inner emissions, a descending sweep, the
/// first emission shifted by one, an ascending sweep, then the second
/// emission unshifted.
pub open spec fn sjt_weave(inner: Seq<u32>, n: u32) -> Seq<u32>
    decreases inner.len(),
{
    if inner.len() == 0 {
        Seq::empty()
    } else if inner.len() == 1 {
        down_run(n) + seq![(inner[0] + 1) as u32] + up_run(n)
    } else {
        down_run(n) + seq![(inner[0] + 1) as u32] + up_run(n) + seq![inner[1]]
            + sjt_weave(inner.skip(2), n)
    }
}

/// The cyclic swap sequence: n! swaps returning to the start; the base case
/// emits one swap down and back.
pub open spec fn sjt_seq(n: u32) -> Seq<u32>
    decreases n,
{
    if n <= 2 {
        seq![0u32, 0u32]
    } else {
        sjt_weave(sjt_seq((n - 1) as u32), n)
    }
}

/// Plain-changes weave: sweeps alternate direction, and the generator stops
/// as soon as the inner engine is exhausted.
pub open spec fn plain_weave(inner: Seq<u32>, n: u32, desc: bool) -> Seq<u32>
    decreases inner.len(),
{
    if desc {
        down_run(n) + if inner.len() == 0 {
            Seq::empty()
        } else {
            seq![(inner[0] + 1) as u32] + plain_weave(inner.drop_first(), n, false)
        }
    } else {
        up_run(n) + if inner.len() == 0 {
            Seq::empty()
        } else {
            seq![inner[0]] + plain_weave(inner.drop_first(), n, true)
        }
    }
}

/// The plain-changes swap sequence: n! - 1 swaps visiting every permutation.
pub open spec fn plain_seq(n: u32) -> Seq<u32>
    decreases n,
{
    if n < 1 {
        Seq::empty()
    } else {
        plain_weave(plain_seq((n - 1) as u32), n, true)
    }
}

/// Every swap position of the cyclic engine is below n - 1.
proof fn lemma_sjt_weave_bounds(inner: Seq<u32>, n: u32)
    requires
        n >= 3,
        forall|i: int| 0 <= i < inner.len() ==> (#[trigger] inner[i] as int) <= n - 3,
    ensures
        forall|i: int| 0 <= i < sjt_weave(inner, n).len()
            ==> (#[trigger] sjt_weave(inner, n)[i] as int) <= n - 2,
    decreases inner.len(),
{
    let w = sjt_weave(inner, n);
    if inner.len() == 0 {
    } else if inner.len() == 1 {
        assert forall|i: int| 0 <= i < w.len() implies (#[trigger] w[i] as int) <= n - 2 by {
            let d = down_run(n).len() as int;
            if i < d {
                assert(w[i] == down_run(n)[i]);
            } else if i == d {
                assert(w[i] == (inner[0] + 1) as u32);
            } else {
                assert(w[i] == up_run(n)[i - d - 1]);
            }
        }
    } else {
        lemma_sjt_weave_bounds(inner.skip(2), n);
        let rest = sjt_weave(inner.skip(2), n);
        assert forall|i: int| 0 <= i < w.len() implies (#[trigger] w[i] as int) <= n - 2 by {
            let d = down_run(n).len() as int;
            if i < d {
                assert(w[i] == down_run(n)[i]);
            } else if i == d {
                assert(w[i] == (inner[0] + 1) as u32);
            } else if i < 2 * d + 1 {
                assert(w[i] == up_run(n)[i - d - 1]);
            } else if i == 2 * d + 1 {
                assert(w[i] == inner[1]);
            } else {
                assert(w[i] == rest[i - 2 * d - 2]);
            }
        }
    }
}

pub proof fn lemma_sjt_bounds(n: u32)
    requires
        n >= 2,
    ensures
        forall|i: int| 0 <= i < sjt_seq(n).len() ==> (#[trigger] sjt_seq(n)[i] as int) <= n - 2,
    decreases n,
{
    if n > 2 {
        lemma_sjt_bounds((n - 1) as u32);
        lemma_sjt_weave_bounds(sjt_seq((n - 1) as u32), n);
    }
}

/// Every swap position of the plain engine is below n - 1.
proof fn lemma_plain_weave_bounds(inner: Seq<u32>, n: u32, desc: bool)
    requires
        n >= 1,
        forall|i: int| 0 <= i < inner.len() ==> (#[trigger] inner[i] as int) <= n - 3,
    ensures
        forall|i: int| 0 <= i < plain_weave(inner, n, desc).len()
            ==> (#[trigger] plain_weave(inner, n, desc)[i] as int) <= n - 2,
    decreases inner.len(),
{
    let w = plain_weave(inner, n, desc);
    let run = if desc {
        down_run(n)
    } else {
        up_run(n)
    };
    let d = run.len() as int;
    if inner.len() == 0 {
        assert(forall|i: int| 0 <= i < w.len() ==> w[i] == run[i]);
    } else {
        lemma_plain_weave_bounds(inner.drop_first(), n, !desc);
        let rest = plain_weave(inner.drop_first(), n, !desc);
        assert forall|i: int| 0 <= i < w.len() implies (#[trigger] w[i] as int) <= n - 2 by {
            if i < d {
                assert(w[i] == run[i]);
            } else if i == d {
                assert(w[i] == (if desc {
                    (inner[0] + 1) as u32
                } else {
                    inner[0]
                }));
            } else {
                assert(w[i] == rest[i - d - 1]);
            }
        }
    }
}

pub proof fn lemma_plain_bounds(n: u32)
    ensures
        forall|i: int| 0 <= i < plain_seq(n).len()
            ==> (#[trigger] plain_seq(n)[i] as int) <= n - 2,
    decreases n,
{
    if n >= 1 {
        lemma_plain_bounds((n - 1) as u32);
        lemma_plain_weave_bounds(plain_seq((n - 1) as u32), n, true);
    }
}

/// Factorials beyond 1! are even.
proof fn lemma_fact_even(m: nat)
    requires
        m >= 2,
    ensures
        fact(m) % 2 == 0,
    decreases m,
{
    if m == 2 {
        assert(fact(2) == 2 * fact(1));
        assert(fact(1) == 1 * fact(0));
    } else {
        lemma_fact_even((m - 1) as nat);
        let h = fact((m - 1) as nat) / 2;
        assert(fact((m - 1) as nat) == 2 * h);
        assert(m * (2 * h) == 2 * (m * h)) by (nonlinear_arith);
        assert(fact(m) == 2 * (m * h));
    }
}

/// A weave over an even number of inner emissions has n times their count.
proof fn lemma_sjt_weave_len(inner: Seq<u32>, n: u32)
    requires
        n >= 1,
        inner.len() % 2 == 0,
    ensures
        sjt_weave(inner, n).len() == inner.len() * (n as nat),
    decreases inner.len(),
{
    if inner.len() >= 2 {
        lemma_sjt_weave_len(inner.skip(2), n);
        let l = inner.len();
        assert(sjt_weave(inner, n).len() == 2 * (n as nat) + (l - 2) * (n as nat));
        assert(2 * (n as nat) + (l - 2) * (n as nat) == l * (n as nat)) by (nonlinear_arith)
            requires
                l >= 2,
        ;
    }
}

/// Counting law for the cyclic engine: exactly n! swaps for n >= 2 (the
/// closed tour visits all n! permutations and returns to the start).
pub proof fn lemma_sjt_count(n: u32)
    requires
        n >= 2,
    ensures
        sjt_seq(n).len() == fact(n as nat),
    decreases n,
{
    if n == 2 {
        assert(fact(2) == 2 * fact(1));
        assert(fact(1) == 1 * fact(0));
    } else {
        lemma_sjt_count((n - 1) as u32);
        lemma_fact_even((n - 1) as nat);
        lemma_sjt_weave_len(sjt_seq((n - 1) as u32), n);
        assert(fact((n - 1) as nat) * (n as nat) == (n as nat) * fact((n - 1) as nat))
            by (nonlinear_arith);
    }
}

/// A plain weave emits one sweep plus n entries per inner emission.
proof fn lemma_plain_weave_len(inner: Seq<u32>, n: u32, desc: bool)
    requires
        n >= 1,
    ensures
        plain_weave(inner, n, desc).len() == run_len(n) + inner.len() * (n as nat),
    decreases inner.len(),
{
    if inner.len() > 0 {
        lemma_plain_weave_len(inner.drop_first(), n, !desc);
        let l = inner.len();
        assert(plain_weave(inner, n, desc).len()
            == run_len(n) + 1 + (run_len(n) + (l - 1) * (n as nat)));
        assert((l - 1) * (n as nat) + (n as nat) == l * (n as nat)) by (nonlinear_arith)
            requires
                l >= 1,
        ;
    }
}

/// Counting law for the plain engine: one swap fewer than there are
/// permutations, for every n.
pub proof fn lemma_plain_count(n: u32)
    ensures
        plain_seq(n).len() + 1 == fact(n as nat),
    decreases n,
{
    if n == 0 {
    } else {
        lemma_plain_count((n - 1) as u32);
        lemma_fact_pos((n - 1) as nat);
        lemma_plain_weave_len(plain_seq((n - 1) as u32), n, true);
        let f1 = fact((n - 1) as nat);
        assert(plain_seq(n).len() == (n - 1) + (f1 - 1) * (n as nat));
        assert((f1 - 1) * (n as nat) == f1 * (n as nat) - (n as nat)) by (nonlinear_arith);
        assert(fact(n as nat) == (n as nat) * f1);
        assert(f1 * (n as nat) == (n as nat) * f1) by (nonlinear_arith);
    }
}

/// The arrangement with the adjacent slots x and x + 1 exchanged.
pub open spec fn swap_at<A>(s: Seq<A>, x: int) -> Seq<A> {
    s.update(x, s[x + 1]).update(x + 1, s[x])
}

/// The arrangement reached by applying a sequence of adjacent swaps.
pub open spec fn apply_swaps<A>(s: Seq<A>, w: Seq<u32>) -> Seq<A>
    decreases w.len(),
{
    if w.len() == 0 {
        s
    } else {
        apply_swaps(swap_at(s, w[0] as int), w.drop_first())
    }
}

proof fn lemma_apply_swaps_add<A>(s: Seq<A>, f: Seq<u32>, g: Seq<u32>)
    ensures
        apply_swaps(s, f + g) == apply_swaps(apply_swaps(s, f), g),
    decreases f.len(),
{
    if f.len() == 0 {
        assert(f + g =~= g);
    } else {
        lemma_apply_swaps_add(swap_at(s, f[0] as int), f.drop_first(), g);
        assert((f + g).drop_first() =~= f.drop_first() + g);
        assert((f + g)[0] == f[0]);
    }
}

proof fn lemma_apply_one<A>(s: Seq<A>, v: u32)
    ensures
        apply_swaps(s, seq![v]) == swap_at(s, v as int),
{
    reveal_with_fuel(apply_swaps, 2);
    assert(seq![v].drop_first() =~= Seq::<u32>::empty());
}

/// A descending sweep carries the last of the first m slots to the front
/// and shifts the others right.
proof fn lemma_down_run_effect<A>(s: Seq<A>, m: u32)
    requires
        1 <= m <= s.len(),
    ensures
        apply_swaps(s, down_run(m)) == Seq::new(
            s.len(),
            |q: int|
                if q == 0 {
                    s[m - 1]
                } else if q < m {
                    s[q - 1]
                } else {
                    s[q]
                },
        ),
    decreases m,
{
    if m == 1 {
        assert(down_run(1) =~= Seq::<u32>::empty());
        assert(apply_swaps(s, down_run(1)) =~= Seq::new(
            s.len(),
            |q: int|
                if q == 0 {
                    s[0]
                } else if q < 1 {
                    s[q - 1]
                } else {
                    s[q]
                },
        ));
    } else {
        assert(down_run(m)[0] == (m - 2) as u32);
        assert(down_run(m).drop_first() =~= down_run((m - 1) as u32));
        let s1 = swap_at(s, (m - 2) as int);
        lemma_down_run_effect(s1, (m - 1) as u32);
        assert(apply_swaps(s, down_run(m)) == apply_swaps(s1, down_run((m - 1) as u32)));
        assert(apply_swaps(s1, down_run((m - 1) as u32)) =~= Seq::new(
            s.len(),
            |q: int|
                if q == 0 {
                    s[m - 1]
                } else if q < m {
                    s[q - 1]
                } else {
                    s[q]
                },
        ));
    }
}

/// An ascending sweep carries the front slot to position m - 1 and shifts
/// the next m - 2 slots left.
proof fn lemma_up_run_effect<A>(s: Seq<A>, m: u32)
    requires
        1 <= m <= s.len(),
    ensures
        apply_swaps(s, up_run(m)) == Seq::new(
            s.len(),
            |q: int|
                if q < m - 1 {
                    s[q + 1]
                } else if q == m - 1 {
                    s[0]
                } else {
                    s[q]
                },
        ),
    decreases m,
{
    if m == 1 {
        assert(up_run(1) =~= Seq::<u32>::empty());
        assert(apply_swaps(s, up_run(1)) =~= Seq::new(
            s.len(),
            |q: int|
                if q < 0 {
                    s[q + 1]
                } else if q == 0 {
                    s[0]
                } else {
                    s[q]
                },
        ));
    } else {
        assert(up_run(m) =~= up_run((m - 1) as u32) + seq![(m - 2) as u32]);
        lemma_up_run_effect(s, (m - 1) as u32);
        lemma_apply_swaps_add(s, up_run((m - 1) as u32), seq![(m - 2) as u32]);
        let t = apply_swaps(s, up_run((m - 1) as u32));
        lemma_apply_one(t, (m - 2) as u32);
        assert(swap_at(t, (m - 2) as int) =~= Seq::new(
            s.len(),
            |q: int|
                if q < m - 1 {
                    s[q + 1]
                } else if q == m - 1 {
                    s[0]
                } else {
                    s[q]
                },
        ));
    }
}

/// One full sweep down and back, with the inner swap done in between, nets
/// exactly the inner swap on the first n - 1 slots.
proof fn lemma_sweep_pair_effect<A>(s: Seq<A>, n: u32, x: u32)
    requires
        3 <= n <= s.len(),
        x + 3 <= n,
    ensures
        apply_swaps(s, down_run(n) + seq![(x + 1) as u32] + up_run(n)) == swap_at(s, x as int),
{
    let d = down_run(n);
    let u = up_run(n);
    let xp = seq![(x + 1) as u32];
    lemma_apply_swaps_add(s, d + xp, u);
    lemma_apply_swaps_add(s, d, xp);
    lemma_down_run_effect(s, n);
    let s1 = apply_swaps(s, d);
    lemma_apply_one(s1, (x + 1) as u32);
    let s2 = swap_at(s1, (x + 1) as int);
    lemma_up_run_effect(s2, n);
    assert(apply_swaps(s2, u) =~= swap_at(s, x as int));
}

/// A weave's net effect on any arrangement is its inner sequence's net
/// effect: every sweep down is undone by the sweep back up.
proof fn lemma_sjt_weave_effect<A>(s: Seq<A>, inner: Seq<u32>, n: u32)
    requires
        3 <= n <= s.len(),
        inner.len() % 2 == 0,
        forall|i: int| 0 <= i < inner.len() ==> (#[trigger] inner[i] as int) <= n - 3,
    ensures
        apply_swaps(s, sjt_weave(inner, n)) == apply_swaps(s, inner),
    decreases inner.len(),
{
    if inner.len() >= 2 {
        let x = inner[0];
        let y = inner[1];
        let rest = inner.skip(2);
        let unit = down_run(n) + seq![(x + 1) as u32] + up_run(n);
        assert(sjt_weave(inner, n) =~= unit + (seq![y] + sjt_weave(rest, n)));
        lemma_apply_swaps_add(s, unit, seq![y] + sjt_weave(rest, n));
        lemma_sweep_pair_effect(s, n, x);
        let s3 = swap_at(s, x as int);
        lemma_apply_swaps_add(s3, seq![y], sjt_weave(rest, n));
        lemma_apply_one(s3, y);
        let s4 = swap_at(s3, y as int);
        lemma_sjt_weave_effect(s4, rest, n);
        assert(apply_swaps(s, sjt_weave(inner, n)) == apply_swaps(s4, rest));
        assert(inner =~= seq![x] + (seq![y] + rest));
        lemma_apply_swaps_add(s, seq![x], seq![y] + rest);
        lemma_apply_one(s, x);
        lemma_apply_swaps_add(s3, seq![y], rest);
        assert(apply_swaps(s, inner) == apply_swaps(s4, rest));
    }
}

/// The closed-tour law of the cyclic engine: applying its swaps to any
/// arrangement of at least n slots returns the arrangement to its start.
pub proof fn lemma_sjt_cycle<A>(s: Seq<A>, n: u32)
    requires
        2 <= n <= s.len(),
    ensures
        apply_swaps(s, sjt_seq(n)) == s,
    decreases n,
{
    if n == 2 {
        assert(sjt_seq(2) =~= seq![0u32, 0u32]);
        reveal_with_fuel(apply_swaps, 3);
        assert(seq![0u32, 0u32].drop_first() =~= seq![0u32]);
        assert(seq![0u32].drop_first() =~= Seq::<u32>::empty());
        assert(swap_at(swap_at(s, 0), 0) =~= s);
    } else {
        let inner = sjt_seq((n - 1) as u32);
        lemma_sjt_count((n - 1) as u32);
        if n >= 4 {
            lemma_fact_even((n - 1) as nat);
        } else {
            assert(fact(2) == 2 * fact(1));
            assert(fact(1) == 1 * fact(0));
        }
        lemma_sjt_bounds((n - 1) as u32);
        lemma_sjt_weave_effect(s, inner, n);
        lemma_sjt_cycle(s, (n - 1) as u32);
    }
}

fn push_down_run(out: &mut Vec<u32>, n: u32)
    requires
        n >= 1,
    ensures
        final(out)@ == old(out)@ + down_run(n),
{
    let ghost base = out@;
    let mut j: u32 = 0;
    while j < n - 1
        invariant
            n >= 1,
            j <= n - 1,
            out@ == base + down_run(n).take(j as int),
        decreases n - 1 - j,
    {
        out.push(n - 2 - j);
        assert(out@ =~= base + down_run(n).take(j + 1));
        j = j + 1;
    }
    assert(out@ =~= base + down_run(n));
}

fn push_up_run(out: &mut Vec<u32>, n: u32)
    requires
        n >= 1,
    ensures
        final(out)@ == old(out)@ + up_run(n),
{
    let ghost base = out@;
    let mut j: u32 = 0;
    while j < n - 1
        invariant
            n >= 1,
            j <= n - 1,
            out@ == base + up_run(n).take(j as int),
        decreases n - 1 - j,
    {
        out.push(j);
        assert(out@ =~= base + up_run(n).take(j + 1));
        j = j + 1;
    }
    assert(out@ =~= base + up_run(n));
}

/// Generate the cyclic adjacent-swap sequence: applying the swaps to any
/// arrangement of n slots visits every permutation and returns to the start.
pub fn sjt_gen(n: u32) -> (r: Vec<u32>)
    ensures
        r@ == sjt_seq(n),
    decreases n,
{
    let mut out: Vec<u32> = Vec::new();
    if n <= 2 {
        out.push(0);
        out.push(0);
        assert(out@ =~= sjt_seq(n));
        return out;
    }
    let inner = sjt_gen(n - 1);
    proof {
        lemma_sjt_bounds((n - 1) as u32);
    }
    let mut i: usize = 0;
    proof {
        assert(inner@.skip(0) =~= inner@);
        assert(out@ + sjt_weave(inner@, n) =~= sjt_weave(inner@, n));
    }
    while i < inner.len()
        invariant
            n >= 3,
            inner@ == sjt_seq((n - 1) as u32),
            forall|t: int| 0 <= t < inner@.len() ==> (#[trigger] inner@[t] as int) <= n - 3,
            i <= inner@.len(),
            out@ + sjt_weave(inner@.skip(i as int), n) == sjt_weave(inner@, n),
        decreases inner@.len() - i,
    {
        let ghost pre = out@;
        let ghost s = inner@.skip(i as int);
        push_down_run(&mut out, n);
        out.push(inner[i] + 1);
        push_up_run(&mut out, n);
        i = i + 1;
        if i < inner.len() {
            out.push(inner[i]);
            i = i + 1;
            proof {
                assert(s.skip(2) =~= inner@.skip(i as int));
                assert(s[0] == inner@[i - 2] && s[1] == inner@[i - 1]);
                assert(sjt_weave(s, n) == down_run(n) + seq![(s[0] + 1) as u32] + up_run(n)
                    + seq![s[1]] + sjt_weave(s.skip(2), n));
                assert(out@ =~= pre + (down_run(n) + seq![(s[0] + 1) as u32] + up_run(n)
                    + seq![s[1]]));
                assert(out@ + sjt_weave(inner@.skip(i as int), n)
                    =~= pre + sjt_weave(s, n));
            }
        } else {
            proof {
                assert(s.len() == 1);
                assert(s[0] == inner@[i - 1]);
                assert(sjt_weave(s, n) == down_run(n) + seq![(s[0] + 1) as u32] + up_run(n));
                assert(out@ =~= pre + sjt_weave(s, n));
                assert(inner@.skip(i as int).len() == 0);
                assert(out@ + sjt_weave(inner@.skip(i as int), n) =~= pre + sjt_weave(s, n));
            }
        }
    }
    proof {
        assert(inner@.skip(inner@.len() as int).len() == 0);
        assert(out@ + sjt_weave(inner@.skip(inner@.len() as int), n) =~= out@);
    }
    out
}

/// Generate the plain-changes adjacent-swap sequence: applying the swaps to
/// any arrangement of n slots visits every permutation exactly once.
pub fn plain_changes(n: u32) -> (r: Vec<u32>)
    ensures
        r@ == plain_seq(n),
    decreases n,
{
    let mut out: Vec<u32> = Vec::new();
    if n < 1 {
        assert(out@ =~= plain_seq(n));
        return out;
    }
    let inner = plain_changes(n - 1);
    proof {
        lemma_plain_bounds((n - 1) as u32);
    }
    let mut i: usize = 0;
    let mut desc = true;
    proof {
        assert(inner@.skip(0) =~= inner@);
        assert(out@ + plain_weave(inner@, n, true) =~= plain_weave(inner@, n, true));
    }
    loop
        invariant_except_break
            out@ + plain_weave(inner@.skip(i as int), n, desc) == plain_weave(inner@, n, true),
        invariant
            n >= 1,
            inner@ == plain_seq((n - 1) as u32),
            forall|t: int| 0 <= t < inner@.len() ==> (#[trigger] inner@[t] as int) <= n - 3,
            i <= inner@.len(),
        ensures
            out@ == plain_weave(inner@, n, true),
        decreases inner@.len() - i,
    {
        let ghost pre = out@;
        let ghost s = inner@.skip(i as int);
        if desc {
            push_down_run(&mut out, n);
        } else {
            push_up_run(&mut out, n);
        }
        if i == inner.len() {
            proof {
                assert(s.len() == 0);
                assert(plain_weave(s, n, desc) == (if desc {
                    down_run(n)
                } else {
                    up_run(n)
                }));
                assert(out@ =~= plain_weave(inner@, n, true));
            }
            break;
        }
        if desc {
            out.push(inner[i] + 1);
        } else {
            out.push(inner[i]);
        }
        i = i + 1;
        desc = !desc;
        proof {
            assert(s.drop_first() =~= inner@.skip(i as int));
            assert(s[0] == inner@[i - 1]);
            if !desc {
                assert(plain_weave(s, n, true) == down_run(n)
                    + (seq![(s[0] + 1) as u32] + plain_weave(s.drop_first(), n, false)));
                assert(out@ + plain_weave(inner@.skip(i as int), n, desc)
                    =~= pre + plain_weave(s, n, true));
            } else {
                assert(plain_weave(s, n, false) == up_run(n)
                    + (seq![s[0]] + plain_weave(s.drop_first(), n, true)));
                assert(out@ + plain_weave(inner@.skip(i as int), n, desc)
                    =~= pre + plain_weave(s, n, false));
            }
        }
    }
    out
}

} // verus!
