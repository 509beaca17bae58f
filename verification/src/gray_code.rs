//! Binary reflected Gray code.
//!
//! `brgc_gen` produces the sequence of bit indices to flip; starting from the
//! all-zero string and flipping them in order visits every binary string of
//! the given width, each successive string differing from the previous one in
//! exactly one bit.  `brgc` layers state tracking on top and returns the
//! strings themselves.

use vstd::prelude::*;
use crate::pow2;
use crate::lemma_pow2_pos;

verus! {

/// Flip indices of the n-bit reflected Gray code: the sequence for n is the
/// sequence for n-1, then the index n-1, then the sequence for n-1 again.
pub open spec fn brgc_seq(n: u32) -> Seq<u32>
    decreases n,
{
    if n == 0 {
        Seq::empty()
    } else {
        brgc_seq((n - 1) as u32) + seq![(n - 1) as u32] + brgc_seq((n - 1) as u32)
    }
}

/// The flip sequence for n bits has pow2(n) - 1 entries.
pub proof fn lemma_brgc_len(n: u32)
    ensures
        brgc_seq(n).len() == pow2(n as nat) - 1,
    decreases n,
{
    lemma_pow2_pos(n as nat);
    if n > 0 {
        lemma_brgc_len((n - 1) as u32);
    }
}

/// Every flip index is a valid bit position.
pub proof fn lemma_brgc_range(n: u32)
    ensures
        forall|i: int| 0 <= i < brgc_seq(n).len() ==> brgc_seq(n)[i] < n,
    decreases n,
{
    if n > 0 {
        lemma_brgc_range((n - 1) as u32);
        let a = brgc_seq((n - 1) as u32);
        assert forall|i: int| 0 <= i < brgc_seq(n).len() implies brgc_seq(n)[i] < n by {
            if i < a.len() {
                assert(brgc_seq(n)[i] == a[i]);
            } else if i == a.len() {
                assert(brgc_seq(n)[i] == n - 1);
            } else {
                assert(brgc_seq(n)[i] == a[i - a.len() - 1]);
            }
        }
    }
}

/// Generate the flip-index sequence of the n-bit reflected Gray code.
pub fn brgc_gen(n: u32) -> (r: Vec<u32>)
    ensures
        r@ == brgc_seq(n),
    decreases n,
{
    let mut r: Vec<u32> = Vec::new();
    if n == 0 {
        assert(r@ =~= brgc_seq(0));
        return r;
    }
    let mut first = brgc_gen(n - 1);
    let mut second = brgc_gen(n - 1);
    r.append(&mut first);
    r.push(n - 1);
    r.append(&mut second);
    assert(r@ =~= brgc_seq(n));
    r
}

/// A binary string: every entry is the byte 0 or the byte 1.
pub open spec fn bits_valid(s: Seq<u8>) -> bool {
    forall|i: int| 0 <= i < s.len() ==> s[i] == 0 || s[i] == 1
}

/// The all-zero string of the given width.
pub open spec fn zero_bits(n: nat) -> Seq<u8> {
    Seq::new(n, |i: int| 0u8)
}

/// The string with the bit at position p toggled.
pub open spec fn flip_bit(s: Seq<u8>, p: int) -> Seq<u8> {
    s.update(p, (1 - s[p]) as u8)
}

/// The trajectory of states visited when replaying a flip sequence from a
/// start string; it includes the start, so it is one longer than the flips.
pub open spec fn gray_states(s: Seq<u8>, flips: Seq<u32>) -> Seq<Seq<u8>>
    decreases flips.len(),
{
    if flips.len() == 0 {
        seq![s]
    } else {
        seq![s] + gray_states(flip_bit(s, flips[0] as int), flips.drop_first())
    }
}

/// Length, start, and the one-flip step relation of a trajectory.
pub proof fn lemma_gray_states_basic(s: Seq<u8>, flips: Seq<u32>)
    ensures
        gray_states(s, flips).len() == flips.len() + 1,
        gray_states(s, flips)[0] == s,
        forall|i: int| 0 <= i < flips.len()
            ==> gray_states(s, flips)[i + 1] == flip_bit(#[trigger] gray_states(s, flips)[i], flips[i] as int),
    decreases flips.len(),
{
    if flips.len() > 0 {
        let s2 = flip_bit(s, flips[0] as int);
        let rest = flips.drop_first();
        lemma_gray_states_basic(s2, rest);
        assert forall|i: int| 0 <= i < flips.len()
            implies gray_states(s, flips)[i + 1] == flip_bit(#[trigger] gray_states(s, flips)[i], flips[i] as int) by {
            if i == 0 {
                assert(gray_states(s, flips)[1] == gray_states(s2, rest)[0]);
            } else {
                assert(gray_states(s, flips)[i + 1] == gray_states(s2, rest)[i]);
                assert(gray_states(s, flips)[i] == gray_states(s2, rest)[i - 1]);
                assert(rest[i - 1] == flips[i]);
            }
        }
    }
}

/// Toggling a valid bit position changes exactly that position and keeps the
/// string a binary string.
pub proof fn lemma_flip_bit_props(s: Seq<u8>, p: int)
    requires
        bits_valid(s),
        0 <= p < s.len(),
    ensures
        flip_bit(s, p).len() == s.len(),
        bits_valid(flip_bit(s, p)),
        flip_bit(s, p)[p] != s[p],
        forall|q: int| 0 <= q < s.len() && q != p ==> flip_bit(s, p)[q] == s[q],
{
}

/// A trajectory over concatenated flip sequences splits into the trajectory
/// of the first part followed by the trajectory of the second part started
/// from where the first ended.
pub proof fn lemma_gray_states_add(s: Seq<u8>, f: Seq<u32>, g: Seq<u32>)
    ensures
        gray_states(s, f + g)
            == gray_states(s, f) + gray_states(gray_states(s, f).last(), g).drop_first(),
    decreases f.len(),
{
    lemma_gray_states_basic(s, f);
    lemma_gray_states_basic(s, f + g);
    if f.len() == 0 {
        assert(f + g =~= g);
        lemma_gray_states_basic(s, g);
        assert(gray_states(s, f).last() == s);
        assert(gray_states(s, f + g)
            =~= gray_states(s, f) + gray_states(s, g).drop_first());
    } else {
        let s2 = flip_bit(s, f[0] as int);
        lemma_gray_states_add(s2, f.drop_first(), g);
        assert((f + g).drop_first() =~= f.drop_first() + g);
        assert((f + g)[0] == f[0]);
        lemma_gray_states_basic(s2, f.drop_first());
        assert(gray_states(s, f).last() == gray_states(s2, f.drop_first()).last());
        assert(gray_states(s, f + g)
            =~= gray_states(s, f) + gray_states(gray_states(s, f).last(), g).drop_first());
    }
}

/// Replaying the n-bit flip sequence from any bit string: pow2(n) states,
/// pairwise distinct, all of the start's width, bits beyond position n
/// untouched.
proof fn lemma_gray_distinct(s: Seq<u8>, m: u32)
    requires
        bits_valid(s),
        m <= s.len(),
    ensures
        ({
            let sts = gray_states(s, brgc_seq(m));
            &&& sts.len() == pow2(m as nat)
            &&& forall|i: int| 0 <= i < sts.len()
                ==> (#[trigger] sts[i]).len() == s.len() && bits_valid(sts[i])
            &&& forall|i: int, q: int|
                0 <= i < sts.len() && m <= q < s.len() ==> #[trigger] sts[i][q] == s[q]
            &&& forall|i: int, j: int| 0 <= i < j < sts.len() ==> sts[i] != sts[j]
        }),
    decreases m,
{
    let sts = gray_states(s, brgc_seq(m));
    lemma_gray_states_basic(s, brgc_seq(m));
    lemma_brgc_len(m);
    lemma_pow2_pos(m as nat);
    if m == 0 {
        assert(sts =~= seq![s]);
    } else {
        let a = brgc_seq((m - 1) as u32);
        let p = (m - 1) as int;
        lemma_brgc_len((m - 1) as u32);
        lemma_pow2_pos((m - 1) as nat);
        let half = pow2((m - 1) as nat) as int;

        lemma_gray_distinct(s, (m - 1) as u32);
        let s1 = gray_states(s, a);
        let mid = s1.last();
        assert(mid == s1[half - 1]);
        let s2start = flip_bit(mid, p);
        assert(bits_valid(s2start)) by {
            assert(forall|q: int| 0 <= q < s2start.len() && q != p ==> s2start[q] == mid[q]);
            assert(s2start[p] == (1 - mid[p]) as u8);
        }
        lemma_gray_distinct(s2start, (m - 1) as u32);
        let s2 = gray_states(s2start, a);

        // Decompose the whole trajectory into the two halves.
        assert(brgc_seq(m) == a + seq![(m - 1) as u32] + a);
        assert(brgc_seq(m) =~= a + (seq![(m - 1) as u32] + a));
        lemma_gray_states_add(s, a, seq![(m - 1) as u32] + a);
        let tailflips = seq![(m - 1) as u32] + a;
        assert(tailflips[0] == (m - 1) as u32);
        assert(tailflips.drop_first() =~= a);
        assert(gray_states(mid, tailflips) == seq![mid] + gray_states(s2start, a));
        lemma_gray_states_basic(mid, tailflips);
        lemma_gray_states_basic(s2start, a);
        assert(gray_states(mid, tailflips).drop_first() =~= s2);
        assert(sts =~= s1 + s2);

        // The two halves disagree at bit position m-1.
        assert(mid[p] == s[p]);
        assert(s2start[p] != s[p]);
        assert(forall|j: int| 0 <= j < s2.len() ==> #[trigger] s2[j][p] == s2start[p]);
        assert(forall|i: int| 0 <= i < s1.len() ==> #[trigger] s1[i][p] == s[p]);

        assert forall|i: int, j: int| 0 <= i < j < sts.len() implies sts[i] != sts[j] by {
            if i < half && j >= half {
                assert(sts[i] == s1[i]);
                assert(sts[j] == s2[j - half]);
                assert(sts[i][p] != sts[j][p]);
            } else if i >= half {
                assert(sts[i] == s2[i - half]);
                assert(sts[j] == s2[j - half]);
            } else {
                assert(sts[i] == s1[i]);
                assert(sts[j] == s1[j]);
            }
        }
        assert forall|i: int, q: int|
            0 <= i < sts.len() && m <= q < s.len() implies #[trigger] sts[i][q] == s[q] by {
            if i < half {
                assert(sts[i] == s1[i]);
            } else {
                assert(sts[i] == s2[i - half]);
                assert(sts[i][q] == s2start[q]);
                assert(s2start[q] == mid[q]);
            }
        }
        assert forall|i: int| 0 <= i < sts.len()
            implies (#[trigger] sts[i]).len() == s.len() && bits_valid(sts[i]) by {
            if i < half {
                assert(sts[i] == s1[i]);
            } else {
                assert(sts[i] == s2[i - half]);
            }
        }
    }
}

fn copy_bits(v: &Vec<u8>) -> (r: Vec<u8>)
    ensures
        r@ == v@,
{
    let mut r: Vec<u8> = Vec::new();
    let mut i: usize = 0;
    while i < v.len()
        invariant
            i <= v@.len(),
            r@ == v@.take(i as int),
        decreases v@.len() - i,
    {
        r.push(v[i]);
        assert(r@ =~= v@.take(i + 1));
        i = i + 1;
    }
    assert(r@ =~= v@);
    r
}

/// Generate every code of the n-bit reflected Gray code, starting from the
/// all-zero string and applying one flip per step.
pub fn brgc(n: u32) -> (r: Vec<Vec<u8>>)
    ensures
        ({
            let sts = gray_states(zero_bits(n as nat), brgc_seq(n));
            &&& r@.len() == sts.len()
            &&& forall|i: int| 0 <= i < r@.len() ==> (#[trigger] r@[i])@ == sts[i]
        }),
{
    let ghost sts = gray_states(zero_bits(n as nat), brgc_seq(n));
    proof {
        lemma_gray_states_basic(zero_bits(n as nat), brgc_seq(n));
        lemma_brgc_range(n);
        lemma_gray_distinct(zero_bits(n as nat), n);
    }
    let flips = brgc_gen(n);
    let mut cur: Vec<u8> = Vec::new();
    let mut j: usize = 0;
    while j < n as usize
        invariant
            j <= n as usize,
            cur@ =~= zero_bits(j as nat),
        decreases n as usize - j,
    {
        cur.push(0);
        assert(cur@ =~= zero_bits((j + 1) as nat));
        j = j + 1;
    }
    assert(cur@ =~= zero_bits(n as nat));
    let mut r: Vec<Vec<u8>> = Vec::new();
    r.push(copy_bits(&cur));
    let mut i: usize = 0;
    while i < flips.len()
        invariant
            i <= flips@.len(),
            flips@ == brgc_seq(n),
            sts == gray_states(zero_bits(n as nat), brgc_seq(n)),
            sts.len() == flips@.len() + 1,
            forall|t: int| 0 <= t < flips@.len()
                ==> sts[t + 1] == flip_bit(#[trigger] sts[t], flips@[t] as int),
            forall|t: int| 0 <= t < sts.len()
                ==> (#[trigger] sts[t]).len() == n && bits_valid(sts[t]),
            forall|t: int| 0 <= t < flips@.len() ==> flips@[t] < n,
            cur@ == sts[i as int],
            r@.len() == i + 1,
            forall|t: int| 0 <= t <= i ==> (#[trigger] r@[t])@ == sts[t],
        decreases flips@.len() - i,
    {
        let p = flips[i] as usize;
        let b = cur[p];
        if b == 0 {
            cur[p] = 1;
        } else {
            cur[p] = 0;
        }
        assert(cur@ =~= flip_bit(sts[i as int], p as int));
        r.push(copy_bits(&cur));
        i = i + 1;
    }
    r
}

/// Two strings of equal width that differ in exactly one position.
pub open spec fn differs_in_one_bit(x: Seq<u8>, y: Seq<u8>) -> bool {
    &&& x.len() == y.len()
    &&& exists|p: int|
        0 <= p < x.len() && x[p] != y[p]
            && (forall|q: int| 0 <= q < x.len() && q != p ==> x[q] == y[q])
}

/// The Gray-code law: replaying the flip sequence for n bits over the
/// all-zero string visits pow2(n) states, pairwise distinct, of width n,
/// consecutive states differing in exactly one bit.
pub proof fn lemma_brgc_gray_code(n: u32)
    ensures
        ({
            let sts = gray_states(zero_bits(n as nat), brgc_seq(n));
            &&& sts.len() == pow2(n as nat)
            &&& forall|i: int| 0 <= i < sts.len() ==> (#[trigger] sts[i]).len() == n
            &&& forall|i: int, j: int| 0 <= i < j < sts.len() ==> sts[i] != sts[j]
            &&& forall|i: int| 0 <= i < sts.len() - 1
                ==> differs_in_one_bit(#[trigger] sts[i], sts[i + 1])
        }),
{
    let z = zero_bits(n as nat);
    let sts = gray_states(z, brgc_seq(n));
    lemma_gray_distinct(z, n);
    lemma_gray_states_basic(z, brgc_seq(n));
    lemma_brgc_range(n);
    lemma_brgc_len(n);
    assert forall|i: int| 0 <= i < sts.len() - 1
        implies differs_in_one_bit(#[trigger] sts[i], sts[i + 1]) by {
        let f = brgc_seq(n);
        let p = f[i] as int;
        assert(sts[i + 1] == flip_bit(sts[i], p));
        assert(0 <= p < sts[i].len());
        assert(sts[i][p] == 0 || sts[i][p] == 1);
        assert(sts[i + 1][p] == (1 - sts[i][p]) as u8);
        assert(sts[i][p] != sts[i + 1][p]);
        assert(forall|q: int| 0 <= q < sts[i].len() && q != p ==> sts[i][q] == sts[i + 1][q]);
    }
}

} // verus!
