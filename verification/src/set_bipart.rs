//! Set bipartition generation.
//!
//! `set_bipart` emits, for a set of size n, the sequence of element indices
//! to move to the other block.  Starting from the canonical bipartition
//! (element n alone in one block) and applying the moves in order visits all
//! S(n, 2) bipartitions, relocating one element per step.

use vstd::prelude::*;
use crate::gray_code::bits_valid;
use crate::gray_code::differs_in_one_bit;
use crate::gray_code::flip_bit;
use crate::gray_code::gray_states;
use crate::gray_code::lemma_flip_bit_props;
use crate::gray_code::lemma_gray_states_add;
use crate::gray_code::lemma_gray_states_basic;

verus! {

/// Stirling number of the second kind S(n, 2), by the doubling recurrence;
/// degenerate sizes count as 1.
pub open spec fn spec_stirling2nd2(n: nat) -> nat
    decreases n,
{
    if n < 3 {
        1
    } else {
        1 + 2 * spec_stirling2nd2((n - 1) as nat)
    }
}

/// The down-phase move sequence: n-1, the up phase for n-1, n, the reverse
/// up phase for n-1.
pub open spec fn gen0_seq(n: u32) -> Seq<u32>
    decreases n,
{
    if n < 3 {
        Seq::empty()
    } else {
        seq![(n - 1) as u32] + gen1_seq((n - 1) as u32) + seq![n] + neg1_seq((n - 1) as u32)
    }
}

/// The up-phase move sequence.
pub open spec fn gen1_seq(n: u32) -> Seq<u32>
    decreases n,
{
    if n < 3 {
        Seq::empty()
    } else {
        seq![2u32] + neg1_seq((n - 1) as u32) + seq![n] + gen1_seq((n - 1) as u32)
    }
}

/// The reversed up-phase move sequence.
pub open spec fn neg1_seq(n: u32) -> Seq<u32>
    decreases n,
{
    if n < 3 {
        Seq::empty()
    } else {
        neg1_seq((n - 1) as u32) + seq![n] + gen1_seq((n - 1) as u32) + seq![2u32]
    }
}

/// The full move sequence of the bipartition engine.
pub open spec fn bipart_seq(n: u32) -> Seq<u32> {
    gen0_seq(n)
}

proof fn lemma_s2_pos(n: nat)
    ensures
        spec_stirling2nd2(n) >= 1,
    decreases n,
{
    if n >= 3 {
        lemma_s2_pos((n - 1) as nat);
    }
}

/// All three phases emit S(n, 2) - 1 moves.
proof fn lemma_bipart_phase_counts(n: u32)
    ensures
        gen0_seq(n).len() + 1 == spec_stirling2nd2(n as nat),
        gen1_seq(n).len() + 1 == spec_stirling2nd2(n as nat),
        neg1_seq(n).len() + 1 == spec_stirling2nd2(n as nat),
    decreases n,
{
    lemma_s2_pos(n as nat);
    if n >= 3 {
        lemma_bipart_phase_counts((n - 1) as u32);
    }
}

/// Splits the up phase's trajectory into the opening move of element 2, the
/// inner reversed pass, and the inner forward pass after moving element m.
#[verifier::rlimit(100)]
pub(crate) proof fn lemma_gen1_walk_shape(s: Seq<u8>, m: u32)
    requires
        bits_valid(s),
        4 <= m,
        m < s.len(),
        gray_states(flip_bit(s, 2), neg1_seq((m - 1) as u32)).last()
            == flip_bit(flip_bit(flip_bit(s, 2), 2), (m - 1) as int),
    ensures
        gray_states(s, gen1_seq(m)) == seq![s]
            + gray_states(flip_bit(s, 2), neg1_seq((m - 1) as u32))
            + gray_states(
            flip_bit(flip_bit(s, (m - 1) as int), m as int),
            gen1_seq((m - 1) as u32),
        ),
{
    let sts = gray_states(s, gen1_seq(m));
    let p = (m - 1) as int;
    let mm = (m - 1) as u32;
    let na = neg1_seq(mm);
    let ga = gen1_seq(mm);
    let w = gen1_seq(m);
    assert(w == seq![2u32] + na + seq![m] + ga);

    let s1 = flip_bit(s, 2);
    lemma_flip_bit_props(s, 2);
    assert(w[0] == 2u32);
    assert(w.drop_first() =~= na + (seq![m] + ga));
    assert(sts == seq![s] + gray_states(s1, w.drop_first()));

    let t1 = gray_states(s1, na);
    lemma_gray_states_basic(s1, na);
    lemma_gray_states_add(s1, na, seq![m] + ga);
    let mid = t1.last();
    assert(mid == flip_bit(flip_bit(s1, 2), p));
    assert(mid =~= flip_bit(s, p));

    assert((seq![m] + ga)[0] == m);
    assert((seq![m] + ga).drop_first() =~= ga);
    let s2 = flip_bit(mid, m as int);
    assert(s2 =~= flip_bit(flip_bit(s, p), m as int));
    assert(gray_states(mid, seq![m] + ga) == seq![mid] + gray_states(s2, ga));
    let t2 = gray_states(s2, ga);
    lemma_gray_states_basic(s2, ga);
    assert((seq![mid] + t2).drop_first() =~= t2);
    assert(sts =~= seq![s] + t1 + t2);
}

/// Replaying the up phase for size m from any block vector: S(m, 2) states,
/// pairwise distinct, elements above m (and element 1) untouched, ending
/// with elements 2 and m moved; the vector with only element m moved is
/// never visited.
#[verifier::rlimit(100)]
pub(crate) proof fn lemma_gen1_walk(s: Seq<u8>, m: u32)
    requires
        bits_valid(s),
        3 <= m,
        m < s.len(),
    ensures
        ({
            let sts = gray_states(s, gen1_seq(m));
            &&& sts.len() == spec_stirling2nd2(m as nat)
            &&& forall|i: int| 0 <= i < sts.len()
                ==> (#[trigger] sts[i]).len() == s.len() && bits_valid(sts[i])
            &&& forall|i: int, q: int|
                0 <= i < sts.len() && 0 <= q < s.len() && !(2 <= q <= m)
                    ==> #[trigger] sts[i][q] == s[q]
            &&& forall|i: int, j: int| 0 <= i < j < sts.len() ==> sts[i] != sts[j]
            &&& sts.last() == flip_bit(flip_bit(s, 2), m as int)
            &&& forall|i: int| 0 <= i < sts.len() ==> #[trigger] sts[i] != flip_bit(s, m as int)
        }),
    decreases m,
{
    let sts = gray_states(s, gen1_seq(m));
    lemma_gray_states_basic(s, gen1_seq(m));
    lemma_flip_bit_props(s, 2);
    lemma_flip_bit_props(s, m as int);
    if m == 3 {
        assert(neg1_seq(2) =~= Seq::<u32>::empty());
        assert(gen1_seq(2) =~= Seq::<u32>::empty());
        assert(gen1_seq(3) =~= seq![2u32, 3u32]);
        let s1 = flip_bit(s, 2);
        let s2 = flip_bit(s1, 3);
        lemma_flip_bit_props(s1, 3);
        assert(seq![2u32, 3u32].drop_first() =~= seq![3u32]);
        assert(seq![3u32].drop_first() =~= Seq::<u32>::empty());
        assert(sts =~= seq![s, s1, s2]);
        assert(spec_stirling2nd2(2) == 1);
        assert(s1[2] != s[2] && s2[2] != s[2]);
        assert(s2[3] != s1[3]);
        assert(flip_bit(s, 3)[2] == s[2]);
    } else {
        let p = (m - 1) as int;
        let mm = (m - 1) as u32;
        let na = neg1_seq(mm);
        let ga = gen1_seq(mm);

        let s1 = flip_bit(s, 2);
        lemma_neg1_walk(s1, mm);
        let t1 = gray_states(s1, na);
        lemma_gray_states_basic(s1, na);
        let s2 = flip_bit(flip_bit(s, p), m as int);
        lemma_flip_bit_props(s, p);
        lemma_flip_bit_props(flip_bit(s, p), m as int);
        lemma_gen1_walk(s2, mm);
        let t2 = gray_states(s2, ga);
        lemma_gray_states_basic(s2, ga);
        lemma_gen1_walk_shape(s, m);
        assert(sts == seq![s] + t1 + t2);

        let l1 = t1.len() as int;
        let l2 = t2.len() as int;
        assert(l1 == spec_stirling2nd2((m - 1) as nat));
        assert(l2 == spec_stirling2nd2((m - 1) as nat));
        assert(sts.len() == 1 + l1 + l2);
        assert(spec_stirling2nd2(m as nat) == 1 + 2 * spec_stirling2nd2((m - 1) as nat));

        // positions 2 and m after the whole walk
        assert(sts.last() == t2.last());
        assert(t2.last() == flip_bit(flip_bit(s2, 2), p));
        assert(flip_bit(flip_bit(s2, 2), p) =~= flip_bit(flip_bit(s, 2), m as int));

        // the state with only element m moved coincides with the second
        // half's forbidden state
        assert(flip_bit(s, m as int) =~= flip_bit(s2, p));

        assert forall|i: int| 0 <= i < sts.len()
            implies (#[trigger] sts[i]).len() == s.len() && bits_valid(sts[i]) by {
            if i == 0 {
            } else if i <= l1 {
                assert(sts[i] == t1[i - 1]);
            } else {
                assert(sts[i] == t2[i - 1 - l1]);
            }
        }
        assert forall|i: int, q: int|
            0 <= i < sts.len() && 0 <= q < s.len() && !(2 <= q <= m)
            implies #[trigger] sts[i][q] == s[q] by {
            if i == 0 {
            } else if i <= l1 {
                assert(sts[i] == t1[i - 1]);
                assert(t1[i - 1][q] == s1[q]);
            } else {
                assert(sts[i] == t2[i - 1 - l1]);
                assert(t2[i - 1 - l1][q] == s2[q]);
            }
        }
        // the two halves and the start are told apart by elements m and 2
        assert(s2[m as int] != s[m as int]);
        assert(forall|t: int| 0 <= t < l2 ==> #[trigger] t2[t][m as int] == s2[m as int]);
        assert(forall|t: int| 0 <= t < l1 ==> #[trigger] t1[t][m as int] == s1[m as int]);
        assert(s1[m as int] == s[m as int]);
        assert forall|i: int, j: int| 0 <= i < j < sts.len() implies sts[i] != sts[j] by {
            if i == 0 && j <= l1 {
                assert(sts[j] == t1[j - 1]);
                assert(t1[j - 1] != flip_bit(s1, 2));
                assert(flip_bit(s1, 2) =~= s);
            } else if i == 0 {
                assert(sts[j] == t2[j - 1 - l1]);
                assert(sts[j][m as int] != s[m as int]);
            } else if i <= l1 && j <= l1 {
                assert(sts[i] == t1[i - 1] && sts[j] == t1[j - 1]);
            } else if i <= l1 {
                assert(sts[i] == t1[i - 1] && sts[j] == t2[j - 1 - l1]);
                assert(sts[i][m as int] == s[m as int]);
                assert(sts[j][m as int] != s[m as int]);
            } else {
                assert(sts[i] == t2[i - 1 - l1] && sts[j] == t2[j - 1 - l1]);
            }
        }
        assert forall|i: int| 0 <= i < sts.len()
            implies #[trigger] sts[i] != flip_bit(s, m as int) by {
            if i == 0 {
                assert(s[m as int] != flip_bit(s, m as int)[m as int]);
            } else if i <= l1 {
                assert(sts[i] == t1[i - 1]);
                assert(sts[i][m as int] == s[m as int]);
                assert(flip_bit(s, m as int)[m as int] != s[m as int]);
            } else {
                assert(sts[i] == t2[i - 1 - l1]);
                assert(t2[i - 1 - l1] != flip_bit(s2, p));
            }
        }
    }
}

/// Splits the reversed up phase's trajectory into the inner reversed pass,
/// the inner forward pass after moving element m, and the closing move of
/// element 2.
#[verifier::rlimit(100)]
pub(crate) proof fn lemma_neg1_walk_shape(s: Seq<u8>, m: u32)
    requires
        bits_valid(s),
        4 <= m,
        m < s.len(),
        gray_states(s, neg1_seq((m - 1) as u32)).last()
            == flip_bit(flip_bit(s, 2), (m - 1) as int),
        gray_states(
            flip_bit(flip_bit(flip_bit(s, 2), (m - 1) as int), m as int),
            gen1_seq((m - 1) as u32),
        ).last() == flip_bit(
            flip_bit(flip_bit(flip_bit(flip_bit(s, 2), (m - 1) as int), m as int), 2),
            (m - 1) as int,
        ),
    ensures
        gray_states(s, neg1_seq(m)) == gray_states(s, neg1_seq((m - 1) as u32))
            + gray_states(
            flip_bit(flip_bit(flip_bit(s, 2), (m - 1) as int), m as int),
            gen1_seq((m - 1) as u32),
        ) + seq![flip_bit(flip_bit(s, 2), m as int)],
{
    let sts = gray_states(s, neg1_seq(m));
    let p = (m - 1) as int;
    let mm = (m - 1) as u32;
    let na = neg1_seq(mm);
    let ga = gen1_seq(mm);
    let w = neg1_seq(m);
    assert(w == na + seq![m] + ga + seq![2u32]);
    assert(w =~= na + (seq![m] + ga + seq![2u32]));

    let t1 = gray_states(s, na);
    lemma_gray_states_basic(s, na);
    lemma_gray_states_add(s, na, seq![m] + ga + seq![2u32]);
    let mid = t1.last();

    let g2 = seq![m] + ga + seq![2u32];
    assert(g2[0] == m);
    assert(g2.drop_first() =~= ga + seq![2u32]);
    let s2 = flip_bit(mid, m as int);
    assert(s2 =~= flip_bit(flip_bit(flip_bit(s, 2), p), m as int));
    assert(gray_states(mid, g2) == seq![mid] + gray_states(s2, ga + seq![2u32]));
    let t2 = gray_states(s2, ga);
    lemma_gray_states_basic(s2, ga);
    lemma_gray_states_add(s2, ga, seq![2u32]);
    let e = t2.last();
    let fin2 = flip_bit(e, 2);
    lemma_gray_states_basic(e, seq![2u32]);
    assert(seq![2u32].drop_first() =~= Seq::<u32>::empty());
    assert(gray_states(e, seq![2u32]) =~= seq![e, fin2]);
    assert(gray_states(s2, ga + seq![2u32]) =~= t2 + seq![fin2]);
    assert((seq![mid] + (t2 + seq![fin2])).drop_first() =~= t2 + seq![fin2]);
    lemma_flip_bit_props(s, 2);
    lemma_flip_bit_props(flip_bit(s, 2), p);
    lemma_flip_bit_props(flip_bit(flip_bit(s, 2), p), m as int);
    assert(fin2 =~= flip_bit(flip_bit(s, 2), m as int));
    assert(sts =~= t1 + t2 + seq![flip_bit(flip_bit(s, 2), m as int)]);
}

/// Replaying the reversed up phase for size m from any block vector: the
/// same shape as the up phase, but the vector with only element 2 moved is
/// never visited.
#[verifier::rlimit(100)]
pub(crate) proof fn lemma_neg1_walk(s: Seq<u8>, m: u32)
    requires
        bits_valid(s),
        3 <= m,
        m < s.len(),
    ensures
        ({
            let sts = gray_states(s, neg1_seq(m));
            &&& sts.len() == spec_stirling2nd2(m as nat)
            &&& forall|i: int| 0 <= i < sts.len()
                ==> (#[trigger] sts[i]).len() == s.len() && bits_valid(sts[i])
            &&& forall|i: int, q: int|
                0 <= i < sts.len() && 0 <= q < s.len() && !(2 <= q <= m)
                    ==> #[trigger] sts[i][q] == s[q]
            &&& forall|i: int, j: int| 0 <= i < j < sts.len() ==> sts[i] != sts[j]
            &&& sts.last() == flip_bit(flip_bit(s, 2), m as int)
            &&& forall|i: int| 0 <= i < sts.len() ==> #[trigger] sts[i] != flip_bit(s, 2)
        }),
    decreases m,
{
    let sts = gray_states(s, neg1_seq(m));
    lemma_gray_states_basic(s, neg1_seq(m));
    lemma_flip_bit_props(s, 2);
    lemma_flip_bit_props(s, m as int);
    if m == 3 {
        assert(neg1_seq(2) =~= Seq::<u32>::empty());
        assert(gen1_seq(2) =~= Seq::<u32>::empty());
        assert(neg1_seq(3) =~= seq![3u32, 2u32]);
        let s1 = flip_bit(s, 3);
        let s2 = flip_bit(s1, 2);
        lemma_flip_bit_props(s1, 2);
        assert(seq![3u32, 2u32].drop_first() =~= seq![2u32]);
        assert(seq![2u32].drop_first() =~= Seq::<u32>::empty());
        assert(sts =~= seq![s, s1, s2]);
        assert(spec_stirling2nd2(2) == 1);
        assert(s1[3] != s[3] && s2[3] != s[3]);
        assert(s2[2] != s1[2]);
        assert(s2 =~= flip_bit(flip_bit(s, 2), 3));
        assert(flip_bit(s, 2)[3] == s[3]);
        assert(s2[3] != flip_bit(s, 2)[3]);
    } else {
        let p = (m - 1) as int;
        let mm = (m - 1) as u32;
        let na = neg1_seq(mm);
        let ga = gen1_seq(mm);

        lemma_neg1_walk(s, mm);
        let t1 = gray_states(s, na);
        lemma_gray_states_basic(s, na);
        let s2 = flip_bit(flip_bit(flip_bit(s, 2), p), m as int);
        lemma_flip_bit_props(flip_bit(s, 2), p);
        lemma_flip_bit_props(flip_bit(flip_bit(s, 2), p), m as int);
        lemma_gen1_walk(s2, mm);
        let t2 = gray_states(s2, ga);
        lemma_gray_states_basic(s2, ga);
        let fin = flip_bit(flip_bit(s, 2), m as int);
        lemma_neg1_walk_shape(s, m);
        assert(sts == t1 + t2 + seq![fin]);

        let l1 = t1.len() as int;
        let l2 = t2.len() as int;
        assert(l1 == spec_stirling2nd2((m - 1) as nat));
        assert(l2 == spec_stirling2nd2((m - 1) as nat));
        assert(sts.len() == l1 + l2 + 1);
        assert(spec_stirling2nd2(m as nat) == 1 + 2 * spec_stirling2nd2((m - 1) as nat));

        assert(sts.last() == fin);

        // the second half's forbidden state is the final state
        assert(flip_bit(s2, p) =~= fin);

        assert forall|i: int| 0 <= i < sts.len()
            implies (#[trigger] sts[i]).len() == s.len() && bits_valid(sts[i]) by {
            if i < l1 {
                assert(sts[i] == t1[i]);
            } else if i < l1 + l2 {
                assert(sts[i] == t2[i - l1]);
            } else {
                assert(sts[i] == fin);
                lemma_flip_bit_props(flip_bit(s, 2), m as int);
            }
        }
        assert forall|i: int, q: int|
            0 <= i < sts.len() && 0 <= q < s.len() && !(2 <= q <= m)
            implies #[trigger] sts[i][q] == s[q] by {
            if i < l1 {
                assert(sts[i] == t1[i]);
            } else if i < l1 + l2 {
                assert(sts[i] == t2[i - l1]);
                assert(t2[i - l1][q] == s2[q]);
            } else {
                assert(sts[i] == fin);
            }
        }
        assert(s2[m as int] != s[m as int]);
        assert(forall|t: int| 0 <= t < l2 ==> #[trigger] t2[t][m as int] == s2[m as int]);
        assert(forall|t: int| 0 <= t < l1 ==> #[trigger] t1[t][m as int] == s[m as int]);
        assert(fin[m as int] != s[m as int]);
        assert forall|i: int, j: int| 0 <= i < j < sts.len() implies sts[i] != sts[j] by {
            if i < l1 && j < l1 {
                assert(sts[i] == t1[i] && sts[j] == t1[j]);
            } else if i < l1 && j < l1 + l2 {
                assert(sts[i] == t1[i] && sts[j] == t2[j - l1]);
                assert(sts[i][m as int] == s[m as int]);
                assert(sts[j][m as int] != s[m as int]);
            } else if i < l1 {
                assert(sts[i] == t1[i] && sts[j] == fin);
                assert(sts[i][m as int] == s[m as int]);
            } else if j < l1 + l2 {
                assert(sts[i] == t2[i - l1] && sts[j] == t2[j - l1]);
            } else if i < l1 + l2 {
                assert(sts[i] == t2[i - l1] && sts[j] == fin);
                assert(t2[i - l1] != flip_bit(s2, p));
            } else {
                assert(false);
            }
        }
        assert forall|i: int| 0 <= i < sts.len()
            implies #[trigger] sts[i] != flip_bit(s, 2) by {
            if i < l1 {
                assert(sts[i] == t1[i]);
            } else if i < l1 + l2 {
                assert(sts[i] == t2[i - l1]);
                assert(sts[i][m as int] != s[m as int]);
                assert(flip_bit(s, 2)[m as int] == s[m as int]);
            } else {
                assert(sts[i] == fin);
                assert(fin[m as int] != flip_bit(s, 2)[m as int]);
            }
        }
    }
}

/// Splits the down phase's trajectory into the opening move of element m-1,
/// the inner forward pass, and the inner reversed pass after moving
/// element m.
#[verifier::rlimit(100)]
pub(crate) proof fn lemma_gen0_walk_shape(s: Seq<u8>, m: u32)
    requires
        bits_valid(s),
        4 <= m,
        m < s.len(),
        gray_states(flip_bit(s, (m - 1) as int), gen1_seq((m - 1) as u32)).last()
            == flip_bit(flip_bit(flip_bit(s, (m - 1) as int), 2), (m - 1) as int),
    ensures
        gray_states(s, gen0_seq(m)) == seq![s]
            + gray_states(flip_bit(s, (m - 1) as int), gen1_seq((m - 1) as u32))
            + gray_states(
            flip_bit(flip_bit(s, 2), m as int),
            neg1_seq((m - 1) as u32),
        ),
{
    let sts = gray_states(s, gen0_seq(m));
    let p = (m - 1) as int;
    let mm = (m - 1) as u32;
    let na = neg1_seq(mm);
    let ga = gen1_seq(mm);
    let w = gen0_seq(m);
    assert(w == seq![(m - 1) as u32] + ga + seq![m] + na);

    let s1 = flip_bit(s, p);
    lemma_flip_bit_props(s, p);
    lemma_flip_bit_props(s, 2);
    assert(w[0] == (m - 1) as u32);
    assert(w.drop_first() =~= ga + (seq![m] + na));
    assert(sts == seq![s] + gray_states(s1, w.drop_first()));

    let t1 = gray_states(s1, ga);
    lemma_gray_states_basic(s1, ga);
    lemma_gray_states_add(s1, ga, seq![m] + na);
    let mid = t1.last();
    assert(mid == flip_bit(flip_bit(s1, 2), p));
    assert(mid =~= flip_bit(s, 2));

    assert((seq![m] + na)[0] == m);
    assert((seq![m] + na).drop_first() =~= na);
    let s2 = flip_bit(mid, m as int);
    assert(s2 =~= flip_bit(flip_bit(s, 2), m as int));
    assert(gray_states(mid, seq![m] + na) == seq![mid] + gray_states(s2, na));
    let t2 = gray_states(s2, na);
    lemma_gray_states_basic(s2, na);
    assert((seq![mid] + t2).drop_first() =~= t2);
    assert(sts =~= seq![s] + t1 + t2);
}

/// Replaying the down phase for size m from any block vector: S(m, 2)
/// pairwise distinct states, ending with elements m-1 and m moved.
#[verifier::rlimit(100)]
pub(crate) proof fn lemma_gen0_walk(s: Seq<u8>, m: u32)
    requires
        bits_valid(s),
        3 <= m,
        m < s.len(),
    ensures
        ({
            let sts = gray_states(s, gen0_seq(m));
            &&& sts.len() == spec_stirling2nd2(m as nat)
            &&& forall|i: int| 0 <= i < sts.len()
                ==> (#[trigger] sts[i]).len() == s.len() && bits_valid(sts[i])
            &&& forall|i: int, q: int|
                0 <= i < sts.len() && 0 <= q < s.len() && !(2 <= q <= m)
                    ==> #[trigger] sts[i][q] == s[q]
            &&& forall|i: int, j: int| 0 <= i < j < sts.len() ==> sts[i] != sts[j]
        }),
{
    let sts = gray_states(s, gen0_seq(m));
    lemma_gray_states_basic(s, gen0_seq(m));
    lemma_flip_bit_props(s, 2);
    lemma_flip_bit_props(s, m as int);
    if m == 3 {
        assert(neg1_seq(2) =~= Seq::<u32>::empty());
        assert(gen1_seq(2) =~= Seq::<u32>::empty());
        assert(gen0_seq(3) =~= seq![2u32, 3u32]);
        let s1 = flip_bit(s, 2);
        let s2 = flip_bit(s1, 3);
        lemma_flip_bit_props(s1, 3);
        assert(seq![2u32, 3u32].drop_first() =~= seq![3u32]);
        assert(seq![3u32].drop_first() =~= Seq::<u32>::empty());
        assert(sts =~= seq![s, s1, s2]);
        assert(spec_stirling2nd2(2) == 1);
        assert(s1[2] != s[2] && s2[2] != s[2]);
        assert(s2[3] != s1[3]);
    } else {
        let p = (m - 1) as int;
        let mm = (m - 1) as u32;
        let na = neg1_seq(mm);
        let ga = gen1_seq(mm);

        let s1 = flip_bit(s, p);
        lemma_flip_bit_props(s, p);
        lemma_gen1_walk(s1, mm);
        let t1 = gray_states(s1, ga);
        lemma_gray_states_basic(s1, ga);
        let s2 = flip_bit(flip_bit(s, 2), m as int);
        lemma_flip_bit_props(flip_bit(s, 2), m as int);
        lemma_neg1_walk(s2, mm);
        let t2 = gray_states(s2, na);
        lemma_gray_states_basic(s2, na);
        lemma_gen0_walk_shape(s, m);
        assert(sts == seq![s] + t1 + t2);

        let l1 = t1.len() as int;
        let l2 = t2.len() as int;
        assert(l1 == spec_stirling2nd2((m - 1) as nat));
        assert(l2 == spec_stirling2nd2((m - 1) as nat));
        assert(sts.len() == 1 + l1 + l2);
        assert(spec_stirling2nd2(m as nat) == 1 + 2 * spec_stirling2nd2((m - 1) as nat));

        // the first half never revisits the start
        assert(flip_bit(s1, p) =~= s);

        assert forall|i: int| 0 <= i < sts.len()
            implies (#[trigger] sts[i]).len() == s.len() && bits_valid(sts[i]) by {
            if i == 0 {
            } else if i <= l1 {
                assert(sts[i] == t1[i - 1]);
            } else {
                assert(sts[i] == t2[i - 1 - l1]);
            }
        }
        assert forall|i: int, q: int|
            0 <= i < sts.len() && 0 <= q < s.len() && !(2 <= q <= m)
            implies #[trigger] sts[i][q] == s[q] by {
            if i == 0 {
            } else if i <= l1 {
                assert(sts[i] == t1[i - 1]);
                assert(t1[i - 1][q] == s1[q]);
            } else {
                assert(sts[i] == t2[i - 1 - l1]);
                assert(t2[i - 1 - l1][q] == s2[q]);
            }
        }
        assert(s2[m as int] != s[m as int]);
        assert(forall|t: int| 0 <= t < l2 ==> #[trigger] t2[t][m as int] == s2[m as int]);
        assert(forall|t: int| 0 <= t < l1 ==> #[trigger] t1[t][m as int] == s1[m as int]);
        assert(s1[m as int] == s[m as int]);
        assert forall|i: int, j: int| 0 <= i < j < sts.len() implies sts[i] != sts[j] by {
            if i == 0 && j <= l1 {
                assert(sts[j] == t1[j - 1]);
                assert(t1[j - 1] != flip_bit(s1, p));
            } else if i == 0 {
                assert(sts[j] == t2[j - 1 - l1]);
                assert(sts[j][m as int] != s[m as int]);
            } else if i <= l1 && j <= l1 {
                assert(sts[i] == t1[i - 1] && sts[j] == t1[j - 1]);
            } else if i <= l1 {
                assert(sts[i] == t1[i - 1] && sts[j] == t2[j - 1 - l1]);
                assert(sts[i][m as int] == s[m as int]);
                assert(sts[j][m as int] != s[m as int]);
            } else {
                assert(sts[i] == t2[i - 1 - l1] && sts[j] == t2[j - 1 - l1]);
            }
        }
    }
}

/// The canonical starting bipartition for n elements: element n alone in
/// the second block (position 0 is unused).
pub open spec fn canonical_bipart(n: u32) -> Seq<u8> {
    Seq::new((n + 1) as nat, |j: int| if j == n { 1u8 } else { 0u8 })
}

/// The bipartition Gray-code law: replaying the move sequence for n from
/// the canonical start visits S(n, 2) block vectors, pairwise distinct,
/// each step relocating exactly one element.
pub proof fn lemma_set_bipart_gray(n: u32)
    ensures
        ({
            let sts = gray_states(canonical_bipart(n), bipart_seq(n));
            &&& sts.len() == spec_stirling2nd2(n as nat)
            &&& forall|i: int| 0 <= i < sts.len() ==> (#[trigger] sts[i]).len() == n + 1
            &&& forall|i: int, j: int| 0 <= i < j < sts.len() ==> sts[i] != sts[j]
            &&& forall|i: int| 0 <= i < sts.len() - 1
                ==> differs_in_one_bit(#[trigger] sts[i], sts[i + 1])
        }),
{
    let s = canonical_bipart(n);
    let sts = gray_states(s, bipart_seq(n));
    assert(bits_valid(s));
    lemma_gray_states_basic(s, bipart_seq(n));
    lemma_set_bipart_range(n);
    if n < 3 {
        assert(bipart_seq(n) =~= Seq::<u32>::empty());
        assert(sts =~= seq![s]);
    } else {
        lemma_gen0_walk(s, n);
    }
    assert forall|i: int| 0 <= i < sts.len() - 1
        implies differs_in_one_bit(#[trigger] sts[i], sts[i + 1]) by {
        let mv = bipart_seq(n);
        let pos = mv[i] as int;
        assert(sts[i + 1] == flip_bit(sts[i], pos));
        assert(2 <= mv[i] <= n);
        if n < 3 {
            assert(false);
        } else {
            assert(sts[i].len() == n + 1 && bits_valid(sts[i]));
            assert(sts[i][pos] != sts[i + 1][pos]);
            assert(forall|q: int| 0 <= q < sts[i].len() && q != pos
                ==> sts[i][q] == sts[i + 1][q]);
        }
    }
}

proof fn lemma_bipart_phase_range(n: u32)
    ensures
        forall|i: int| 0 <= i < gen0_seq(n).len() ==> 2 <= #[trigger] gen0_seq(n)[i] <= n,
        forall|i: int| 0 <= i < gen1_seq(n).len() ==> 2 <= #[trigger] gen1_seq(n)[i] <= n,
        forall|i: int| 0 <= i < neg1_seq(n).len() ==> 2 <= #[trigger] neg1_seq(n)[i] <= n,
    decreases n,
{
    if n >= 3 {
        lemma_bipart_phase_range((n - 1) as u32);
    }
}

/// Every emitted move names one of the elements 2..=n; element 1 never
/// moves.
pub proof fn lemma_set_bipart_range(n: u32)
    ensures
        forall|i: int| 0 <= i < bipart_seq(n).len() ==> 2 <= #[trigger] bipart_seq(n)[i] <= n,
{
    lemma_bipart_phase_range(n);
}

/// Counting law: the engine emits one move fewer than there are
/// bipartitions, for every n.
pub proof fn lemma_set_bipart_count(n: u32)
    ensures
        bipart_seq(n).len() + 1 == spec_stirling2nd2(n as nat),
{
    lemma_bipart_phase_counts(n);
}

/// Calculate the Stirling number of the second kind S(n, 2).
///
/// The precondition is exactly the machine limit: the result must fit in
/// `u32` (so `n` can be at most 33).
pub fn stirling2nd2(n: u32) -> (r: u32)
    requires
        spec_stirling2nd2(n as nat) <= u32::MAX,
    ensures
        r == spec_stirling2nd2(n as nat),
    decreases n,
{
    if n < 3 {
        1
    } else {
        proof {
            lemma_s2_pos((n - 1) as nat);
        }
        1 + 2 * stirling2nd2(n - 1)
    }
}

fn gen0(n: u32) -> (r: Vec<u32>)
    ensures
        r@ == gen0_seq(n),
    decreases n,
{
    let mut r: Vec<u32> = Vec::new();
    if n < 3 {
        assert(r@ =~= gen0_seq(n));
        return r;
    }
    r.push(n - 1);
    let mut t = gen1(n - 1);
    r.append(&mut t);
    r.push(n);
    let mut t2 = neg1(n - 1);
    r.append(&mut t2);
    assert(r@ =~= gen0_seq(n));
    r
}

fn gen1(n: u32) -> (r: Vec<u32>)
    ensures
        r@ == gen1_seq(n),
    decreases n,
{
    let mut r: Vec<u32> = Vec::new();
    if n < 3 {
        assert(r@ =~= gen1_seq(n));
        return r;
    }
    r.push(2);
    let mut t = neg1(n - 1);
    r.append(&mut t);
    r.push(n);
    let mut t2 = gen1(n - 1);
    r.append(&mut t2);
    assert(r@ =~= gen1_seq(n));
    r
}

fn neg1(n: u32) -> (r: Vec<u32>)
    ensures
        r@ == neg1_seq(n),
    decreases n,
{
    let mut r: Vec<u32> = Vec::new();
    if n < 3 {
        assert(r@ =~= neg1_seq(n));
        return r;
    }
    let mut t = neg1(n - 1);
    r.append(&mut t);
    r.push(n);
    let mut t2 = gen1(n - 1);
    r.append(&mut t2);
    r.push(2);
    assert(r@ =~= neg1_seq(n));
    r
}

/// Generate the element moves of the bipartition engine for a set of size n.
pub fn set_bipart(n: u32) -> (r: Vec<u32>)
    ensures
        r@ == bipart_seq(n),
{
    gen0(n)
}

} // verus!
