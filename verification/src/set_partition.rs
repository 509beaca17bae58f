//! Set partition generation for a general block count.
//!
//! `set_partition` emits (element, destination-block) moves; starting from
//! the canonical restricted-growth string and applying them in order walks
//! through set partitions of n elements into k blocks, one relocation per
//! step.  The engine is a family of eight mutually recursive procedures,
//! selected by the parity of k, each interleaving moves of the last element
//! with recursive passes over the smaller instance.

use vstd::prelude::*;
use crate::gray_code::bits_valid;
use crate::gray_code::flip_bit;
use crate::gray_code::gray_states;
use crate::gray_code::lemma_flip_bit_props;
use crate::set_bipart::bipart_seq;
use crate::set_bipart::canonical_bipart;
use crate::set_bipart::gen0_seq;
use crate::set_bipart::gen1_seq;
use crate::set_bipart::neg1_seq;
use crate::set_bipart::spec_stirling2nd2;
use crate::set_bipart::lemma_gen0_walk_shape;
use crate::set_bipart::lemma_gen1_walk;
use crate::set_bipart::lemma_gen1_walk_shape;
use crate::set_bipart::lemma_neg1_walk;
use crate::set_bipart::lemma_neg1_walk_shape;

verus! {

/// Stirling number of the second kind S(n, k) by the Pascal-style
/// recurrence; degenerate parameters (k <= 1 or k >= n) count as 1.
pub open spec fn spec_stirling(n: nat, k: nat) -> nat
    decreases n,
{
    if k >= n || k <= 1 {
        1
    } else {
        (if k == 2 {
            1
        } else {
            spec_stirling((n - 1) as nat, (k - 1) as nat)
        }) + k * (if k == n - 1 {
            1
        } else {
            spec_stirling((n - 1) as nat, k)
        })
    }
}

/// Descending interleave: for i = start, start-2, ... down to stop, the
/// moves (n, i), the pass a, the move (n, i-1), the pass b.
pub open spec fn desc_seq(
    a: Seq<(u32, u32)>,
    b: Seq<(u32, u32)>,
    n: u32,
    i: int,
    stop: nat,
) -> Seq<(u32, u32)>
    decreases i,
{
    if i < stop {
        Seq::empty()
    } else {
        seq![(n, i as u32)] + a + seq![(n, (i - 1) as u32)] + b + (if i >= stop + 2 {
            desc_seq(a, b, n, i - 2, stop)
        } else {
            Seq::empty()
        })
    }
}

/// Ascending interleave: for i = 1, 3, ... up to limit, the pass a, the move
/// (n, i), the pass b, the move (n, i+1).
pub open spec fn asc_seq(
    a: Seq<(u32, u32)>,
    b: Seq<(u32, u32)>,
    n: u32,
    i: int,
    limit: int,
) -> Seq<(u32, u32)>
    decreases limit - i,
{
    if i > limit {
        Seq::empty()
    } else {
        a + seq![(n, i as u32)] + b + seq![(n, (i + 1) as u32)] + (if i + 2 <= limit {
            asc_seq(a, b, n, i + 2, limit)
        } else {
            Seq::empty()
        })
    }
}

pub open spec fn gen0_even_seq(n: u32, k: u32) -> Seq<(u32, u32)>
    decreases n, 0int,
{
    if n == 0 {
        Seq::empty()
    } else {
        (if k > 2 {
            gen0_odd_seq((n - 1) as u32, (k - 1) as u32)
        } else {
            Seq::empty()
        }) + seq![((n - 1) as u32, (k - 1) as u32)] + (if k < n - 1 {
            let a = gen1_even_seq((n - 1) as u32, k);
            let b = neg1_even_seq((n - 1) as u32, k);
            a + seq![(n, (k - 2) as u32)] + b + desc_seq(a, b, n, k - 3, 1)
        } else {
            seq![(n, (k - 2) as u32)] + desc_seq(Seq::empty(), Seq::empty(), n, k - 3, 1)
        })
    }
}

pub open spec fn neg0_even_seq(n: u32, k: u32) -> Seq<(u32, u32)>
    decreases n, 0int,
{
    if n == 0 {
        Seq::empty()
    } else {
        (if k < n - 1 {
            let a = gen1_even_seq((n - 1) as u32, k);
            let b = neg1_even_seq((n - 1) as u32, k);
            asc_seq(a, b, n, 1, k - 3) + a + seq![(n, (k - 1) as u32)] + b
        } else {
            asc_seq(Seq::empty(), Seq::empty(), n, 1, k - 3) + seq![(n, (k - 1) as u32)]
        }) + seq![((n - 1) as u32, 0u32)] + (if k > 3 {
            neg0_odd_seq((n - 1) as u32, (k - 1) as u32)
        } else {
            Seq::empty()
        })
    }
}

pub open spec fn gen1_even_seq(n: u32, k: u32) -> Seq<(u32, u32)>
    decreases n, 0int,
{
    if n == 0 {
        Seq::empty()
    } else {
        (if k > 3 {
            gen1_odd_seq((n - 1) as u32, (k - 1) as u32)
        } else {
            Seq::empty()
        }) + seq![(k, (k - 1) as u32)] + (if k < n - 1 {
            let a = neg1_even_seq((n - 1) as u32, k);
            let b = gen1_even_seq((n - 1) as u32, k);
            a + seq![(n, (k - 2) as u32)] + b + desc_seq(a, b, n, k - 3, 1)
        } else {
            seq![(n, (k - 2) as u32)] + desc_seq(Seq::empty(), Seq::empty(), n, k - 3, 1)
        })
    }
}

pub open spec fn neg1_even_seq(n: u32, k: u32) -> Seq<(u32, u32)>
    decreases n, 0int,
{
    if n == 0 {
        Seq::empty()
    } else {
        (if k < n - 1 {
            let a = neg1_even_seq((n - 1) as u32, k);
            let b = gen1_even_seq((n - 1) as u32, k);
            asc_seq(a, b, n, 1, k - 3) + a + seq![(n, (k - 1) as u32)] + b
        } else {
            asc_seq(Seq::empty(), Seq::empty(), n, 1, k - 3) + seq![(n, (k - 1) as u32)]
        }) + seq![(k, 0u32)] + (if k > 3 {
            neg1_odd_seq((n - 1) as u32, (k - 1) as u32)
        } else {
            Seq::empty()
        })
    }
}

pub open spec fn gen0_odd_seq(n: u32, k: u32) -> Seq<(u32, u32)>
    decreases n, 1int,
{
    if n == 0 {
        Seq::empty()
    } else {
        gen1_even_seq((n - 1) as u32, (k - 1) as u32) + seq![(k, (k - 1) as u32)]
            + (if k < n - 1 {
            let a = gen1_odd_seq((n - 1) as u32, k);
            let b = neg1_odd_seq((n - 1) as u32, k);
            b + desc_seq(a, b, n, k - 2, 2)
        } else {
            desc_seq(Seq::empty(), Seq::empty(), n, k - 2, 2)
        })
    }
}

pub open spec fn neg0_odd_seq(n: u32, k: u32) -> Seq<(u32, u32)>
    decreases n, 1int,
{
    if n == 0 {
        Seq::empty()
    } else {
        (if k < n - 1 {
            let a = gen1_odd_seq((n - 1) as u32, k);
            let b = neg1_odd_seq((n - 1) as u32, k);
            asc_seq(a, b, n, 1, k - 2) + a
        } else {
            asc_seq(Seq::empty(), Seq::empty(), n, 1, k - 2)
        }) + seq![(k, 0u32)] + neg1_even_seq((n - 1) as u32, (k - 1) as u32)
    }
}

pub open spec fn gen1_odd_seq(n: u32, k: u32) -> Seq<(u32, u32)>
    decreases n, 1int,
{
    if n == 0 {
        Seq::empty()
    } else {
        gen0_even_seq((n - 1) as u32, (k - 1) as u32) + seq![((n - 1) as u32, (k - 1) as u32)]
            + (if k < n - 1 {
            let a = neg1_odd_seq((n - 1) as u32, k);
            let b = gen1_odd_seq((n - 1) as u32, k);
            b + desc_seq(a, b, n, k - 2, 2)
        } else {
            desc_seq(Seq::empty(), Seq::empty(), n, k - 2, 2)
        })
    }
}

pub open spec fn neg1_odd_seq(n: u32, k: u32) -> Seq<(u32, u32)>
    decreases n, 1int,
{
    if n == 0 {
        Seq::empty()
    } else {
        (if k < n - 1 {
            let a = neg1_odd_seq((n - 1) as u32, k);
            let b = gen1_odd_seq((n - 1) as u32, k);
            asc_seq(a, b, n, 1, k - 2) + a
        } else {
            asc_seq(Seq::empty(), Seq::empty(), n, 1, k - 2)
        }) + seq![((n - 1) as u32, 0u32)] + neg0_even_seq((n - 1) as u32, (k - 1) as u32)
    }
}

/// The full move sequence of the partition engine: empty unless 1 < k < n,
/// else the forward procedure matching k's parity.
pub open spec fn partition_seq(n: u32, k: u32) -> Seq<(u32, u32)> {
    if !(k > 1 && k < n) {
        Seq::empty()
    } else if k % 2 == 0 {
        gen0_even_seq(n, k)
    } else {
        gen0_odd_seq(n, k)
    }
}

pub proof fn lemma_stirling_pos(n: nat, k: nat)
    ensures
        spec_stirling(n, k) >= 1,
    decreases n,
{
    if !(k >= n || k <= 1) {
        if k != 2 {
            lemma_stirling_pos((n - 1) as nat, (k - 1) as nat);
        }
        if k != n - 1 {
            lemma_stirling_pos((n - 1) as nat, k);
        }
        let a = if k == 2 {
            1nat
        } else {
            spec_stirling((n - 1) as nat, (k - 1) as nat)
        };
        let b = if k == n - 1 {
            1nat
        } else {
            spec_stirling((n - 1) as nat, k)
        };
        assert(k * b >= 0);
        assert(spec_stirling(n, k) == a + k * b);
    }
}

/// For two blocks the three phases each emit S(n, 2) - 1 moves.
proof fn lemma_partition_k2_counts(n: u32)
    requires
        n >= 3,
    ensures
        gen0_even_seq(n, 2).len() + 1 == spec_stirling(n as nat, 2),
        gen1_even_seq(n, 2).len() + 1 == spec_stirling(n as nat, 2),
        neg1_even_seq(n, 2).len() + 1 == spec_stirling(n as nat, 2),
    decreases n,
{
    if n == 3 {
        assert(gen0_even_seq(3, 2).len() == 2);
        assert(gen1_even_seq(3, 2).len() == 2);
        assert(neg1_even_seq(3, 2).len() == 2);
        assert(spec_stirling(3, 2) == 3);
    } else {
        lemma_partition_k2_counts((n - 1) as u32);
        assert(spec_stirling(n as nat, 2) == 1 + 2 * spec_stirling((n - 1) as nat, 2));
    }
}

/// The trajectory of restricted-growth strings visited when replaying a
/// move sequence from a start string: each move writes its destination
/// block into the moved element's position.  It includes the start, so it
/// is one longer than the moves.
pub open spec fn rgs_states(s: Seq<u8>, moves: Seq<(u32, u32)>) -> Seq<Seq<u8>>
    decreases moves.len(),
{
    if moves.len() == 0 {
        seq![s]
    } else {
        seq![s] + rgs_states(s.update(moves[0].0 as int, moves[0].1 as u8), moves.drop_first())
    }
}

/// Length, start, and the one-assignment step relation of a trajectory.
proof fn lemma_rgs_states_basic(s: Seq<u8>, moves: Seq<(u32, u32)>)
    ensures
        rgs_states(s, moves).len() == moves.len() + 1,
        rgs_states(s, moves)[0] == s,
    decreases moves.len(),
{
    if moves.len() > 0 {
        lemma_rgs_states_basic(
            s.update(moves[0].0 as int, moves[0].1 as u8),
            moves.drop_first(),
        );
    }
}

/// A trajectory over concatenated move sequences splits into the trajectory
/// of the first part followed by the trajectory of the second part started
/// from where the first ended.
proof fn lemma_rgs_states_add(s: Seq<u8>, f: Seq<(u32, u32)>, g: Seq<(u32, u32)>)
    ensures
        rgs_states(s, f + g)
            == rgs_states(s, f) + rgs_states(rgs_states(s, f).last(), g).drop_first(),
    decreases f.len(),
{
    lemma_rgs_states_basic(s, f);
    lemma_rgs_states_basic(s, f + g);
    if f.len() == 0 {
        assert(f + g =~= g);
        lemma_rgs_states_basic(s, g);
        assert(rgs_states(s, f).last() == s);
        assert(rgs_states(s, f + g)
            =~= rgs_states(s, f) + rgs_states(s, g).drop_first());
    } else {
        let s2 = s.update(f[0].0 as int, f[0].1 as u8);
        lemma_rgs_states_add(s2, f.drop_first(), g);
        assert((f + g).drop_first() =~= f.drop_first() + g);
        assert((f + g)[0] == f[0]);
        lemma_rgs_states_basic(s2, f.drop_first());
        assert(rgs_states(s, f).last() == rgs_states(s2, f.drop_first()).last());
        assert(rgs_states(s, f + g)
            =~= rgs_states(s, f) + rgs_states(rgs_states(s, f).last(), g).drop_first());
    }
}

/// The elements named by a move sequence, with destination blocks dropped.
pub open spec fn moved_elements(s: Seq<(u32, u32)>) -> Seq<u32> {
    s.map_values(|p: (u32, u32)| p.0)
}

proof fn lemma_k2_phase_elements(n: u32)
    requires
        n >= 3,
    ensures
        moved_elements(gen0_even_seq(n, 2)) == crate::set_bipart::gen0_seq(n),
        moved_elements(gen1_even_seq(n, 2)) == crate::set_bipart::gen1_seq(n),
        moved_elements(neg1_even_seq(n, 2)) == crate::set_bipart::neg1_seq(n),
    decreases n,
{
    if n == 3 {
        assert(crate::set_bipart::gen0_seq(2) =~= Seq::<u32>::empty());
        assert(crate::set_bipart::gen1_seq(2) =~= Seq::<u32>::empty());
        assert(crate::set_bipart::neg1_seq(2) =~= Seq::<u32>::empty());
        assert(crate::set_bipart::gen0_seq(3) =~= seq![2u32, 3u32]);
        assert(crate::set_bipart::gen1_seq(3) =~= seq![2u32, 3u32]);
        assert(crate::set_bipart::neg1_seq(3) =~= seq![3u32, 2u32]);
        assert(moved_elements(gen0_even_seq(3, 2)) =~= seq![2u32, 3u32]);
        assert(moved_elements(gen1_even_seq(3, 2)) =~= seq![2u32, 3u32]);
        assert(moved_elements(neg1_even_seq(3, 2)) =~= seq![3u32, 2u32]);
    } else {
        lemma_k2_phase_elements((n - 1) as u32);
        let a = gen1_even_seq((n - 1) as u32, 2);
        let b = neg1_even_seq((n - 1) as u32, 2);
        assert(gen0_even_seq(n, 2)
            =~= seq![((n - 1) as u32, 1u32)] + a + seq![(n, 0u32)] + b);
        assert(moved_elements(gen0_even_seq(n, 2))
            =~= seq![(n - 1) as u32] + moved_elements(a) + seq![n] + moved_elements(b));
        assert(gen1_even_seq(n, 2)
            =~= seq![(2u32, 1u32)] + b + seq![(n, 0u32)] + a);
        assert(moved_elements(gen1_even_seq(n, 2))
            =~= seq![2u32] + moved_elements(b) + seq![n] + moved_elements(a));
        assert(neg1_even_seq(n, 2)
            =~= b + seq![(n, 1u32)] + a + seq![(2u32, 0u32)]);
        assert(moved_elements(neg1_even_seq(n, 2))
            =~= moved_elements(b) + seq![n] + moved_elements(a) + seq![2u32]);
    }
}

/// The partition engine generalizes the bipartition engine: for two blocks
/// it emits exactly the bipartition engine's elements, with the destination
/// blocks made explicit.
pub proof fn lemma_set_partition_generalizes_bipart(n: u32)
    ensures
        moved_elements(partition_seq(n, 2)) == crate::set_bipart::bipart_seq(n),
{
    if n <= 2 {
        assert(moved_elements(partition_seq(n, 2)) =~= Seq::<u32>::empty());
        assert(crate::set_bipart::bipart_seq(n) =~= Seq::<u32>::empty());
    } else {
        lemma_k2_phase_elements(n);
    }
}

/// S(n, 2) agrees between the general recurrence and the two-block
/// doubling recurrence.
pub proof fn lemma_stirling_two_blocks(n: nat)
    ensures
        spec_stirling(n, 2) == spec_stirling2nd2(n),
    decreases n,
{
    if n <= 2 {
    } else if n == 3 {
        assert(spec_stirling2nd2(2) == 1);
        assert(spec_stirling(3, 2) == 3);
    } else {
        lemma_stirling_two_blocks((n - 1) as nat);
        assert(spec_stirling(n, 2) == 1 + 2 * spec_stirling((n - 1) as nat, 2));
        assert(spec_stirling2nd2(n) == 1 + 2 * spec_stirling2nd2((n - 1) as nat));
    }
}

/// Replaying the two-block up phase as block assignments from a vector with
/// element 2 in block 0, element m in block 1 and everything between in
/// block 0 retraces the bipartition up phase's toggles exactly.
#[verifier::rlimit(100)]
proof fn lemma_gen1_even_k2(u: Seq<u8>, m: u32)
    requires
        bits_valid(u),
        3 <= m,
        m < u.len(),
        u[2] == 0,
        u[m as int] == 1,
        forall|j: int| 3 <= j <= m - 1 ==> u[j] == 0,
    ensures
        rgs_states(u, gen1_even_seq(m, 2)) == gray_states(u, gen1_seq(m)),
    decreases m,
{
    lemma_flip_bit_props(u, 2);
    lemma_flip_bit_props(u, m as int);
    if m == 3 {
        reveal_with_fuel(rgs_states, 4);
        reveal_with_fuel(gray_states, 4);
        assert(gen1_even_seq(3, 2) =~= seq![(2u32, 1u32), (3u32, 0u32)]);
        assert(neg1_seq(2) =~= Seq::<u32>::empty());
        assert(gen1_seq(2) =~= Seq::<u32>::empty());
        assert(gen1_seq(3) =~= seq![2u32, 3u32]);
        let u1 = flip_bit(u, 2);
        lemma_flip_bit_props(u1, 3);
        assert(u.update(2, 1u8) =~= u1);
        assert(u1.update(3, 0u8) =~= flip_bit(u1, 3));
        assert(seq![(2u32, 1u32), (3u32, 0u32)].drop_first() =~= seq![(3u32, 0u32)]);
        assert(seq![(3u32, 0u32)].drop_first() =~= Seq::<(u32, u32)>::empty());
        assert(seq![2u32, 3u32].drop_first() =~= seq![3u32]);
        assert(seq![3u32].drop_first() =~= Seq::<u32>::empty());
        assert(rgs_states(u, gen1_even_seq(3, 2)) =~= seq![u, u1, flip_bit(u1, 3)]);
        assert(gray_states(u, gen1_seq(3)) =~= seq![u, u1, flip_bit(u1, 3)]);
    } else {
        let p = (m - 1) as int;
        let mm = (m - 1) as u32;
        let u1 = flip_bit(u, 2);
        lemma_neg1_walk(u1, mm);
        lemma_neg1_even_k2(u1, mm);
        lemma_gen1_walk_shape(u, m);
        let v = flip_bit(flip_bit(u, p), m as int);
        lemma_flip_bit_props(u, p);
        lemma_flip_bit_props(flip_bit(u, p), m as int);
        lemma_gen1_even_k2(v, mm);
        lemma_gen1_even_k2_shape(u, m);
    }
}

/// Splits the two-block up phase's assignment trajectory like the toggle
/// trajectory: the opening move of element 2, the inner reversed pass, and
/// the inner forward pass after element m leaves block 1.
#[verifier::rlimit(100)]
proof fn lemma_gen1_even_k2_shape(u: Seq<u8>, m: u32)
    requires
        bits_valid(u),
        4 <= m,
        m < u.len(),
        u[2] == 0,
        u[m as int] == 1,
        rgs_states(flip_bit(u, 2), neg1_even_seq((m - 1) as u32, 2)).last()
            == flip_bit(flip_bit(flip_bit(u, 2), 2), (m - 1) as int),
    ensures
        rgs_states(u, gen1_even_seq(m, 2)) == seq![u]
            + rgs_states(flip_bit(u, 2), neg1_even_seq((m - 1) as u32, 2))
            + rgs_states(
            flip_bit(flip_bit(u, (m - 1) as int), m as int),
            gen1_even_seq((m - 1) as u32, 2),
        ),
{
    let p = (m - 1) as int;
    let mm = (m - 1) as u32;
    let pa = neg1_even_seq(mm, 2);
    let pb = gen1_even_seq(mm, 2);
    let pairs = gen1_even_seq(m, 2);
    assert(pairs =~= seq![(2u32, 1u32)] + (pa + (seq![(m, 0u32)] + pb)));
    lemma_flip_bit_props(u, 2);
    lemma_flip_bit_props(u, p);

    let u1 = flip_bit(u, 2);
    assert(pairs[0] == (2u32, 1u32));
    assert(u.update(2, 1u8) =~= u1);
    assert(pairs.drop_first() =~= pa + (seq![(m, 0u32)] + pb));
    assert(rgs_states(u, pairs) == seq![u] + rgs_states(u1, pairs.drop_first()));

    let r1 = rgs_states(u1, pa);
    lemma_rgs_states_basic(u1, pa);
    lemma_rgs_states_add(u1, pa, seq![(m, 0u32)] + pb);
    let mid = r1.last();
    assert(mid =~= flip_bit(u, p));

    assert((seq![(m, 0u32)] + pb)[0] == (m, 0u32));
    assert((seq![(m, 0u32)] + pb).drop_first() =~= pb);
    let v = flip_bit(flip_bit(u, p), m as int);
    assert(mid[m as int] == 1);
    assert(mid.update(m as int, 0u8) =~= v);
    assert(rgs_states(mid, seq![(m, 0u32)] + pb) == seq![mid] + rgs_states(v, pb));
    let r2 = rgs_states(v, pb);
    lemma_rgs_states_basic(v, pb);
    assert((seq![mid] + r2).drop_first() =~= r2);
    assert(rgs_states(u, pairs) =~= seq![u] + r1 + r2);
}

/// Replaying the two-block reversed up phase as block assignments from a
/// vector with element 2 in block 1 and elements 3..=m in block 0 retraces
/// the bipartition reversed up phase's toggles exactly.
#[verifier::rlimit(100)]
proof fn lemma_neg1_even_k2(t: Seq<u8>, m: u32)
    requires
        bits_valid(t),
        3 <= m,
        m < t.len(),
        t[2] == 1,
        forall|j: int| 3 <= j <= m ==> t[j] == 0,
    ensures
        rgs_states(t, neg1_even_seq(m, 2)) == gray_states(t, neg1_seq(m)),
    decreases m,
{
    lemma_flip_bit_props(t, 2);
    lemma_flip_bit_props(t, m as int);
    if m == 3 {
        reveal_with_fuel(rgs_states, 4);
        reveal_with_fuel(gray_states, 4);
        assert(neg1_even_seq(3, 2) =~= seq![(3u32, 1u32), (2u32, 0u32)]);
        assert(neg1_seq(2) =~= Seq::<u32>::empty());
        assert(gen1_seq(2) =~= Seq::<u32>::empty());
        assert(neg1_seq(3) =~= seq![3u32, 2u32]);
        let t1 = flip_bit(t, 3);
        lemma_flip_bit_props(t1, 2);
        assert(t.update(3, 1u8) =~= t1);
        assert(t1.update(2, 0u8) =~= flip_bit(t1, 2));
        assert(seq![(3u32, 1u32), (2u32, 0u32)].drop_first() =~= seq![(2u32, 0u32)]);
        assert(seq![(2u32, 0u32)].drop_first() =~= Seq::<(u32, u32)>::empty());
        assert(seq![3u32, 2u32].drop_first() =~= seq![2u32]);
        assert(seq![2u32].drop_first() =~= Seq::<u32>::empty());
        assert(rgs_states(t, neg1_even_seq(3, 2)) =~= seq![t, t1, flip_bit(t1, 2)]);
        assert(gray_states(t, neg1_seq(3)) =~= seq![t, t1, flip_bit(t1, 2)]);
    } else {
        let p = (m - 1) as int;
        let mm = (m - 1) as u32;
        lemma_neg1_walk(t, mm);
        lemma_neg1_even_k2(t, mm);
        let s2 = flip_bit(flip_bit(flip_bit(t, 2), p), m as int);
        lemma_flip_bit_props(flip_bit(t, 2), p);
        lemma_flip_bit_props(flip_bit(flip_bit(t, 2), p), m as int);
        lemma_gen1_walk(s2, mm);
        lemma_gen1_even_k2(s2, mm);
        lemma_neg1_walk_shape(t, m);
        lemma_neg1_even_k2_shape(t, m);
    }
}

/// Splits the two-block reversed up phase's assignment trajectory like the
/// toggle trajectory: the inner reversed pass, the inner forward pass after
/// element m enters block 1, and the closing move of element 2.
#[verifier::rlimit(100)]
proof fn lemma_neg1_even_k2_shape(t: Seq<u8>, m: u32)
    requires
        bits_valid(t),
        4 <= m,
        m < t.len(),
        t[2] == 1,
        t[m as int] == 0,
        rgs_states(t, neg1_even_seq((m - 1) as u32, 2)).last()
            == flip_bit(flip_bit(t, 2), (m - 1) as int),
        rgs_states(
            flip_bit(flip_bit(flip_bit(t, 2), (m - 1) as int), m as int),
            gen1_even_seq((m - 1) as u32, 2),
        ).last() == flip_bit(
            flip_bit(flip_bit(flip_bit(flip_bit(t, 2), (m - 1) as int), m as int), 2),
            (m - 1) as int,
        ),
    ensures
        rgs_states(t, neg1_even_seq(m, 2)) == rgs_states(t, neg1_even_seq((m - 1) as u32, 2))
            + rgs_states(
            flip_bit(flip_bit(flip_bit(t, 2), (m - 1) as int), m as int),
            gen1_even_seq((m - 1) as u32, 2),
        ) + seq![flip_bit(flip_bit(t, 2), m as int)],
{
    let p = (m - 1) as int;
    let mm = (m - 1) as u32;
    let pa = neg1_even_seq(mm, 2);
    let pb = gen1_even_seq(mm, 2);
    let pairs = neg1_even_seq(m, 2);
    assert(pairs =~= pa + (seq![(m, 1u32)] + pb + seq![(2u32, 0u32)]));
    lemma_flip_bit_props(t, 2);
    lemma_flip_bit_props(flip_bit(t, 2), p);
    lemma_flip_bit_props(flip_bit(flip_bit(t, 2), p), m as int);

    let r1 = rgs_states(t, pa);
    lemma_rgs_states_basic(t, pa);
    lemma_rgs_states_add(t, pa, seq![(m, 1u32)] + pb + seq![(2u32, 0u32)]);
    let mid = r1.last();
    let s2 = flip_bit(flip_bit(flip_bit(t, 2), p), m as int);

    // the move of element m into block 1 is a proper relocation
    assert(mid[m as int] == 0);
    assert(mid.update(m as int, 1u8) =~= s2);
    let g2 = seq![(m, 1u32)] + pb + seq![(2u32, 0u32)];
    assert(g2[0] == (m, 1u32));
    assert(g2.drop_first() =~= pb + seq![(2u32, 0u32)]);
    assert(rgs_states(mid, g2) == seq![mid] + rgs_states(s2, pb + seq![(2u32, 0u32)]));

    let r2 = rgs_states(s2, pb);
    lemma_rgs_states_basic(s2, pb);
    lemma_rgs_states_add(s2, pb, seq![(2u32, 0u32)]);
    let e = r2.last();
    let fin = flip_bit(flip_bit(t, 2), m as int);

    // the closing move of element 2 back to block 0 is a proper relocation
    reveal_with_fuel(rgs_states, 3);
    assert(e[2] == 1);
    assert(e.update(2, 0u8) =~= fin);
    lemma_rgs_states_basic(e, seq![(2u32, 0u32)]);
    assert(seq![(2u32, 0u32)].drop_first() =~= Seq::<(u32, u32)>::empty());
    assert(rgs_states(e, seq![(2u32, 0u32)]) =~= seq![e, fin]);
    assert(rgs_states(s2, pb + seq![(2u32, 0u32)]) =~= r2 + seq![fin]);
    assert((seq![mid] + (r2 + seq![fin])).drop_first() =~= r2 + seq![fin]);
    assert(rgs_states(t, pairs) =~= r1 + r2 + seq![fin]);
}

/// Replaying the two-block down phase as block assignments from the
/// canonical pattern (element m alone in block 1) retraces the bipartition
/// down phase's toggles exactly.
#[verifier::rlimit(100)]
proof fn lemma_gen0_even_k2(c: Seq<u8>, m: u32)
    requires
        bits_valid(c),
        3 <= m,
        m < c.len(),
        c[m as int] == 1,
        forall|j: int| 2 <= j <= m - 1 ==> c[j] == 0,
    ensures
        rgs_states(c, gen0_even_seq(m, 2)) == gray_states(c, gen0_seq(m)),
{
    assert(c[2] == 0);
    lemma_flip_bit_props(c, 2);
    lemma_flip_bit_props(c, m as int);
    if m == 3 {
        reveal_with_fuel(rgs_states, 4);
        reveal_with_fuel(gray_states, 4);
        assert(gen0_even_seq(3, 2) =~= seq![(2u32, 1u32), (3u32, 0u32)]);
        assert(neg1_seq(2) =~= Seq::<u32>::empty());
        assert(gen1_seq(2) =~= Seq::<u32>::empty());
        assert(gen0_seq(3) =~= seq![2u32, 3u32]);
        let c1 = flip_bit(c, 2);
        lemma_flip_bit_props(c1, 3);
        assert(c.update(2, 1u8) =~= c1);
        assert(c1.update(3, 0u8) =~= flip_bit(c1, 3));
        assert(seq![(2u32, 1u32), (3u32, 0u32)].drop_first() =~= seq![(3u32, 0u32)]);
        assert(seq![(3u32, 0u32)].drop_first() =~= Seq::<(u32, u32)>::empty());
        assert(seq![2u32, 3u32].drop_first() =~= seq![3u32]);
        assert(seq![3u32].drop_first() =~= Seq::<u32>::empty());
        assert(rgs_states(c, gen0_even_seq(3, 2)) =~= seq![c, c1, flip_bit(c1, 3)]);
        assert(gray_states(c, gen0_seq(3)) =~= seq![c, c1, flip_bit(c1, 3)]);
    } else {
        let p = (m - 1) as int;
        let mm = (m - 1) as u32;
        let u = flip_bit(c, p);
        lemma_flip_bit_props(c, p);
        lemma_gen1_walk(u, mm);
        lemma_gen1_even_k2(u, mm);
        lemma_gen0_walk_shape(c, m);
        let s2 = flip_bit(flip_bit(c, 2), m as int);
        lemma_flip_bit_props(flip_bit(c, 2), m as int);
        lemma_neg1_walk(s2, mm);
        lemma_neg1_even_k2(s2, mm);
        lemma_gen0_even_k2_shape(c, m);
    }
}

/// Splits the two-block down phase's assignment trajectory like the toggle
/// trajectory: the opening move of element m-1, the inner forward pass, and
/// the inner reversed pass after element m leaves block 1.
#[verifier::rlimit(100)]
proof fn lemma_gen0_even_k2_shape(c: Seq<u8>, m: u32)
    requires
        bits_valid(c),
        4 <= m,
        m < c.len(),
        c[2] == 0,
        c[(m - 1) as int] == 0,
        c[m as int] == 1,
        rgs_states(flip_bit(c, (m - 1) as int), gen1_even_seq((m - 1) as u32, 2)).last()
            == flip_bit(flip_bit(flip_bit(c, (m - 1) as int), 2), (m - 1) as int),
    ensures
        rgs_states(c, gen0_even_seq(m, 2)) == seq![c]
            + rgs_states(flip_bit(c, (m - 1) as int), gen1_even_seq((m - 1) as u32, 2))
            + rgs_states(
            flip_bit(flip_bit(c, 2), m as int),
            neg1_even_seq((m - 1) as u32, 2),
        ),
{
    let p = (m - 1) as int;
    let mm = (m - 1) as u32;
    let pa = neg1_even_seq(mm, 2);
    let pb = gen1_even_seq(mm, 2);
    let pairs = gen0_even_seq(m, 2);
    assert(pairs =~= seq![((m - 1) as u32, 1u32)] + (pb + (seq![(m, 0u32)] + pa)));
    lemma_flip_bit_props(c, 2);
    lemma_flip_bit_props(c, p);

    let u = flip_bit(c, p);
    assert(pairs[0] == ((m - 1) as u32, 1u32));
    assert(c.update(p, 1u8) =~= u);
    assert(pairs.drop_first() =~= pb + (seq![(m, 0u32)] + pa));
    assert(rgs_states(c, pairs) == seq![c] + rgs_states(u, pairs.drop_first()));

    let r1 = rgs_states(u, pb);
    lemma_rgs_states_basic(u, pb);
    lemma_rgs_states_add(u, pb, seq![(m, 0u32)] + pa);
    let mid = r1.last();
    assert(mid =~= flip_bit(c, 2));

    assert((seq![(m, 0u32)] + pa)[0] == (m, 0u32));
    assert((seq![(m, 0u32)] + pa).drop_first() =~= pa);
    let s2 = flip_bit(flip_bit(c, 2), m as int);
    assert(mid[m as int] == 1);
    assert(mid.update(m as int, 0u8) =~= s2);
    assert(rgs_states(mid, seq![(m, 0u32)] + pa) == seq![mid] + rgs_states(s2, pa));
    let r2 = rgs_states(s2, pa);
    lemma_rgs_states_basic(s2, pa);
    assert((seq![mid] + r2).drop_first() =~= r2);
    assert(rgs_states(c, pairs) =~= seq![c] + r1 + r2);
}

/// For two blocks the partition engine's replay is the bipartition
/// engine's replay: starting from the canonical two-block string, the
/// assignment of each emitted destination block performs exactly the
/// bipartition engine's relocation, so the walk visits the same S(n, 2)
/// pairwise-distinct states (see the bipartition Gray-code law).
pub proof fn lemma_set_partition_two_blocks_walk(n: u32)
    ensures
        rgs_states(canonical_bipart(n), partition_seq(n, 2))
            == gray_states(canonical_bipart(n), bipart_seq(n)),
        rgs_states(canonical_bipart(n), partition_seq(n, 2)).len()
            == spec_stirling(n as nat, 2),
        forall|i: int, j: int|
            0 <= i < j < rgs_states(canonical_bipart(n), partition_seq(n, 2)).len()
                ==> rgs_states(canonical_bipart(n), partition_seq(n, 2))[i]
                != rgs_states(canonical_bipart(n), partition_seq(n, 2))[j],
{
    let c = canonical_bipart(n);
    if n < 3 {
        assert(partition_seq(n, 2) =~= Seq::<(u32, u32)>::empty());
        assert(bipart_seq(n) =~= Seq::<u32>::empty());
        assert(rgs_states(c, partition_seq(n, 2)) =~= seq![c]);
        assert(gray_states(c, bipart_seq(n)) =~= seq![c]);
    } else {
        assert(bits_valid(c));
        lemma_gen0_even_k2(c, n);
    }
    crate::set_bipart::lemma_set_bipart_gray(n);
    lemma_stirling_two_blocks(n as nat);
}

/// Counting law for the partition engine, where the count applies: for two
/// blocks the engine emits one move fewer than there are partitions, and for
/// degenerate block counts it emits nothing.
pub proof fn lemma_set_partition_count(n: u32, k: u32)
    ensures
        k == 2 && n > 2 ==> partition_seq(n, k).len() + 1 == spec_stirling(n as nat, k as nat),
        k <= 1 || k >= n ==> partition_seq(n, k).len() == 0,
{
    if k == 2 && n > 2 {
        lemma_partition_k2_counts(n);
    }
}

fn append_copy(dst: &mut Vec<(u32, u32)>, src: &Vec<(u32, u32)>)
    ensures
        final(dst)@ == old(dst)@ + src@,
{
    let ghost base = dst@;
    let mut i: usize = 0;
    while i < src.len()
        invariant
            i <= src@.len(),
            dst@ == base + src@.take(i as int),
        decreases src@.len() - i,
    {
        dst.push(src[i]);
        assert(dst@ =~= base + src@.take(i + 1));
        i = i + 1;
    }
    assert(dst@ =~= base + src@);
}

fn push_desc(r: &mut Vec<(u32, u32)>, a: &Vec<(u32, u32)>, b: &Vec<(u32, u32)>, n: u32, start: u32, stop: u32)
    requires
        stop == 1 || stop == 2,
        stop <= start,
    ensures
        final(r)@ == old(r)@ + desc_seq(a@, b@, n, start as int, stop as nat),
{
    let ghost base = r@;
    let ghost whole = desc_seq(a@, b@, n, start as int, stop as nat);
    let mut i: u32 = start;
    loop
        invariant_except_break
            stop <= i <= start,
            base + whole == r@ + desc_seq(a@, b@, n, i as int, stop as nat),
        invariant
            stop == 1 || stop == 2,
            whole == desc_seq(a@, b@, n, start as int, stop as nat),
        ensures
            r@ == base + whole,
        decreases i,
    {
        let ghost pre = r@;
        r.push((n, i));
        append_copy(r, a);
        r.push((n, i - 1));
        append_copy(r, b);
        proof {
            assert(r@ =~= pre + (seq![(n, i)] + a@ + seq![(n, (i - 1) as u32)] + b@));
        }
        if i < stop + 2 {
            proof {
                assert(desc_seq(a@, b@, n, i as int, stop as nat)
                    == seq![(n, i)] + a@ + seq![(n, (i - 1) as u32)] + b@ + Seq::empty());
                assert(r@ =~= base + whole);
            }
            break;
        }
        i = i - 2;
        proof {
            assert(desc_seq(a@, b@, n, (i + 2) as int, stop as nat)
                == seq![(n, (i + 2) as u32)] + a@ + seq![(n, (i + 1) as u32)] + b@
                    + desc_seq(a@, b@, n, i as int, stop as nat));
            assert(base + whole =~= r@ + desc_seq(a@, b@, n, i as int, stop as nat));
        }
    }
}

fn push_asc(r: &mut Vec<(u32, u32)>, a: &Vec<(u32, u32)>, b: &Vec<(u32, u32)>, n: u32, limit: u32)
    requires
        1 <= limit <= u32::MAX - 2,
    ensures
        final(r)@ == old(r)@ + asc_seq(a@, b@, n, 1, limit as int),
{
    let ghost base = r@;
    let ghost whole = asc_seq(a@, b@, n, 1, limit as int);
    let mut i: u32 = 1;
    loop
        invariant_except_break
            1 <= i <= limit,
            base + whole == r@ + asc_seq(a@, b@, n, i as int, limit as int),
        invariant
            limit <= u32::MAX - 2,
            whole == asc_seq(a@, b@, n, 1, limit as int),
        ensures
            r@ == base + whole,
        decreases limit - i,
    {
        let ghost pre = r@;
        append_copy(r, a);
        r.push((n, i));
        append_copy(r, b);
        r.push((n, i + 1));
        proof {
            assert(r@ =~= pre + (a@ + seq![(n, i)] + b@ + seq![(n, (i + 1) as u32)]));
        }
        if i + 2 > limit {
            proof {
                assert(asc_seq(a@, b@, n, i as int, limit as int)
                    == a@ + seq![(n, i)] + b@ + seq![(n, (i + 1) as u32)] + Seq::empty());
                assert(r@ =~= base + whole);
            }
            break;
        }
        i = i + 2;
        proof {
            assert(asc_seq(a@, b@, n, (i - 2) as int, limit as int)
                == a@ + seq![(n, (i - 2) as u32)] + b@ + seq![(n, (i - 1) as u32)]
                    + asc_seq(a@, b@, n, i as int, limit as int));
            assert(base + whole =~= r@ + asc_seq(a@, b@, n, i as int, limit as int));
        }
    }
}

#[verifier::rlimit(50)]
fn gen0_even(n: u32, k: u32) -> (r: Vec<(u32, u32)>)
    requires
        2 <= k < n,
        k % 2 == 0,
    ensures
        r@ == gen0_even_seq(n, k),
    decreases n, 0int,
{
    let mut r: Vec<(u32, u32)> = Vec::new();
    if k > 2 {
        let mut h = gen0_odd(n - 1, k - 1);
        r.append(&mut h);
    }
    r.push((n - 1, k - 1));
    if k < n - 1 {
        let a = gen1_even(n - 1, k);
        let b = neg1_even(n - 1, k);
        append_copy(&mut r, &a);
        r.push((n, k - 2));
        append_copy(&mut r, &b);
        if k >= 4 {
            push_desc(&mut r, &a, &b, n, k - 3, 1);
        }
        assert(r@ =~= gen0_even_seq(n, k));
    } else {
        r.push((n, k - 2));
        let e: Vec<(u32, u32)> = Vec::new();
        if k >= 4 {
            push_desc(&mut r, &e, &e, n, k - 3, 1);
        }
        assert(r@ =~= gen0_even_seq(n, k));
    }
    r
}

#[verifier::rlimit(50)]
fn neg0_even(n: u32, k: u32) -> (r: Vec<(u32, u32)>)
    requires
        2 <= k < n,
        k % 2 == 0,
    ensures
        r@ == neg0_even_seq(n, k),
    decreases n, 0int,
{
    let mut r: Vec<(u32, u32)> = Vec::new();
    if k < n - 1 {
        let a = gen1_even(n - 1, k);
        let b = neg1_even(n - 1, k);
        if k >= 4 {
            push_asc(&mut r, &a, &b, n, k - 3);
        }
        append_copy(&mut r, &a);
        r.push((n, k - 1));
        append_copy(&mut r, &b);
    } else {
        let e: Vec<(u32, u32)> = Vec::new();
        if k >= 4 {
            push_asc(&mut r, &e, &e, n, k - 3);
        }
        r.push((n, k - 1));
    }
    r.push((n - 1, 0));
    if k > 3 {
        let mut t = neg0_odd(n - 1, k - 1);
        r.append(&mut t);
    }
    assert(r@ =~= neg0_even_seq(n, k));
    r
}

#[verifier::rlimit(50)]
fn gen1_even(n: u32, k: u32) -> (r: Vec<(u32, u32)>)
    requires
        2 <= k < n,
        k % 2 == 0,
    ensures
        r@ == gen1_even_seq(n, k),
    decreases n, 0int,
{
    let mut r: Vec<(u32, u32)> = Vec::new();
    if k > 3 {
        let mut h = gen1_odd(n - 1, k - 1);
        r.append(&mut h);
    }
    r.push((k, k - 1));
    if k < n - 1 {
        let a = neg1_even(n - 1, k);
        let b = gen1_even(n - 1, k);
        append_copy(&mut r, &a);
        r.push((n, k - 2));
        append_copy(&mut r, &b);
        if k >= 4 {
            push_desc(&mut r, &a, &b, n, k - 3, 1);
        }
        assert(r@ =~= gen1_even_seq(n, k));
    } else {
        r.push((n, k - 2));
        let e: Vec<(u32, u32)> = Vec::new();
        if k >= 4 {
            push_desc(&mut r, &e, &e, n, k - 3, 1);
        }
        assert(r@ =~= gen1_even_seq(n, k));
    }
    r
}

#[verifier::rlimit(50)]
fn neg1_even(n: u32, k: u32) -> (r: Vec<(u32, u32)>)
    requires
        2 <= k < n,
        k % 2 == 0,
    ensures
        r@ == neg1_even_seq(n, k),
    decreases n, 0int,
{
    let mut r: Vec<(u32, u32)> = Vec::new();
    if k < n - 1 {
        let a = neg1_even(n - 1, k);
        let b = gen1_even(n - 1, k);
        if k >= 4 {
            push_asc(&mut r, &a, &b, n, k - 3);
        }
        append_copy(&mut r, &a);
        r.push((n, k - 1));
        append_copy(&mut r, &b);
    } else {
        let e: Vec<(u32, u32)> = Vec::new();
        if k >= 4 {
            push_asc(&mut r, &e, &e, n, k - 3);
        }
        r.push((n, k - 1));
    }
    r.push((k, 0));
    if k > 3 {
        let mut t = neg1_odd(n - 1, k - 1);
        r.append(&mut t);
    }
    assert(r@ =~= neg1_even_seq(n, k));
    r
}

#[verifier::rlimit(50)]
fn gen0_odd(n: u32, k: u32) -> (r: Vec<(u32, u32)>)
    requires
        3 <= k < n,
        k % 2 == 1,
    ensures
        r@ == gen0_odd_seq(n, k),
    decreases n, 1int,
{
    let mut r: Vec<(u32, u32)> = Vec::new();
    let mut h = gen1_even(n - 1, k - 1);
    r.append(&mut h);
    r.push((k, k - 1));
    if k < n - 1 {
        let a = gen1_odd(n - 1, k);
        let b = neg1_odd(n - 1, k);
        append_copy(&mut r, &b);
        if k >= 4 {
            push_desc(&mut r, &a, &b, n, k - 2, 2);
        }
        assert(r@ =~= gen0_odd_seq(n, k));
    } else {
        let e: Vec<(u32, u32)> = Vec::new();
        if k >= 4 {
            push_desc(&mut r, &e, &e, n, k - 2, 2);
        }
        assert(r@ =~= gen0_odd_seq(n, k));
    }
    r
}

#[verifier::rlimit(50)]
fn neg0_odd(n: u32, k: u32) -> (r: Vec<(u32, u32)>)
    requires
        3 <= k < n,
        k % 2 == 1,
    ensures
        r@ == neg0_odd_seq(n, k),
    decreases n, 1int,
{
    let mut r: Vec<(u32, u32)> = Vec::new();
    if k < n - 1 {
        let a = gen1_odd(n - 1, k);
        let b = neg1_odd(n - 1, k);
        push_asc(&mut r, &a, &b, n, k - 2);
        append_copy(&mut r, &a);
    } else {
        let e: Vec<(u32, u32)> = Vec::new();
        push_asc(&mut r, &e, &e, n, k - 2);
    }
    r.push((k, 0));
    let mut t = neg1_even(n - 1, k - 1);
    r.append(&mut t);
    assert(r@ =~= neg0_odd_seq(n, k));
    r
}

#[verifier::rlimit(50)]
fn gen1_odd(n: u32, k: u32) -> (r: Vec<(u32, u32)>)
    requires
        3 <= k < n,
        k % 2 == 1,
    ensures
        r@ == gen1_odd_seq(n, k),
    decreases n, 1int,
{
    let mut r: Vec<(u32, u32)> = Vec::new();
    let mut h = gen0_even(n - 1, k - 1);
    r.append(&mut h);
    r.push((n - 1, k - 1));
    if k < n - 1 {
        let a = neg1_odd(n - 1, k);
        let b = gen1_odd(n - 1, k);
        append_copy(&mut r, &b);
        if k >= 4 {
            push_desc(&mut r, &a, &b, n, k - 2, 2);
        }
        assert(r@ =~= gen1_odd_seq(n, k));
    } else {
        let e: Vec<(u32, u32)> = Vec::new();
        if k >= 4 {
            push_desc(&mut r, &e, &e, n, k - 2, 2);
        }
        assert(r@ =~= gen1_odd_seq(n, k));
    }
    r
}

#[verifier::rlimit(50)]
fn neg1_odd(n: u32, k: u32) -> (r: Vec<(u32, u32)>)
    requires
        3 <= k < n,
        k % 2 == 1,
    ensures
        r@ == neg1_odd_seq(n, k),
    decreases n, 1int,
{
    let mut r: Vec<(u32, u32)> = Vec::new();
    if k < n - 1 {
        let a = neg1_odd(n - 1, k);
        let b = gen1_odd(n - 1, k);
        push_asc(&mut r, &a, &b, n, k - 2);
        append_copy(&mut r, &a);
    } else {
        let e: Vec<(u32, u32)> = Vec::new();
        push_asc(&mut r, &e, &e, n, k - 2);
    }
    r.push((n - 1, 0));
    let mut t = neg0_even(n - 1, k - 1);
    r.append(&mut t);
    assert(r@ =~= neg1_odd_seq(n, k));
    r
}

/// Generate the (element, destination-block) moves of the partition engine
/// for n elements and k blocks; degenerate block counts give no moves.
pub fn set_partition(n: u32, k: u32) -> (r: Vec<(u32, u32)>)
    ensures
        r@ == partition_seq(n, k),
        k <= 1 || k >= n ==> r@.len() == 0,
{
    if !(k > 1 && k < n) {
        let r: Vec<(u32, u32)> = Vec::new();
        assert(r@ =~= partition_seq(n, k));
        r
    } else if k % 2 == 0 {
        gen0_even(n, k)
    } else {
        gen0_odd(n, k)
    }
}

/// Calculate the Stirling number of the second kind S(n, k).
///
/// The precondition is exactly the machine limit: the result must fit in
/// `u64`; every intermediate value is bounded by the result.
pub fn stirling2nd(n: u32, k: u32) -> (r: u64)
    requires
        spec_stirling(n as nat, k as nat) <= u64::MAX,
    ensures
        r == spec_stirling(n as nat, k as nat),
{
    if k >= n || k <= 1 {
        1
    } else {
        stirling2nd_recur(n, k)
    }
}

fn stirling2nd_recur(n: u32, k: u32) -> (r: u64)
    requires
        1 < k < n,
        spec_stirling(n as nat, k as nat) <= u64::MAX,
    ensures
        r == spec_stirling(n as nat, k as nat),
    decreases n,
{
    let ghost s = spec_stirling(n as nat, k as nat);
    let ghost ap = if k == 2 {
        1nat
    } else {
        spec_stirling((n - 1) as nat, (k - 1) as nat)
    };
    let ghost bp = if k == n - 1 {
        1nat
    } else {
        spec_stirling((n - 1) as nat, k as nat)
    };
    proof {
        assert(s == ap + (k as nat) * bp);
        lemma_stirling_pos((n - 1) as nat, (k - 1) as nat);
        lemma_stirling_pos((n - 1) as nat, k as nat);
        assert((k as nat) * bp >= 1 * bp) by (nonlinear_arith)
            requires
                k >= 1,
                bp >= 0,
        ;
    }
    let a: u64 = if k == 2 {
        1
    } else {
        stirling2nd_recur(n - 1, k - 1)
    };
    let b: u64 = if k == n - 1 {
        1
    } else {
        stirling2nd_recur(n - 1, k)
    };
    a + (k as u64) * b
}

} // verus!
