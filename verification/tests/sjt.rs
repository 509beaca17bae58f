use rust_ai::sjt::plain_changes;
use rust_ai::sjt::sjt_gen;

#[test]
fn test_sjt_gen_small() {
    let swaps: Vec<u32> = sjt_gen(2);
    assert_eq!(swaps, vec![0, 0]);

    let swaps: Vec<u32> = sjt_gen(3);
    // For n=3, should generate 3! = 6 swaps
    assert_eq!(swaps.len(), 6);
}

#[test]
fn test_sjt_gen_permutations() {
    let n: u32 = 4;
    let mut perm: Vec<u32> = (0..n).collect();
    let mut permutations: Vec<Vec<u32>> = vec![perm.clone()];

    for swap_idx in sjt_gen(n) {
        perm.swap(swap_idx as usize, swap_idx as usize + 1);
        permutations.push(perm.clone());
    }

    // Should generate n! + 1 permutations (return to the start)
    assert_eq!(permutations.len(), 25); // 4! + 1 = 25

    // All permutations should be unique
    let mut sorted = permutations.clone();
    sorted.sort();
    sorted.dedup();
    assert_eq!(sorted.len(), 24);

    // Should return to original permutation
    assert_eq!(perm, vec![0, 1, 2, 3]);
}

#[test]
fn test_plain_changes_small() {
    let swaps: Vec<u32> = plain_changes(2);
    // For n=2, should generate 1 swap
    assert_eq!(swaps.len(), 1);

    let swaps: Vec<u32> = plain_changes(3);
    // For n=3, should generate 3! - 1 = 5 swaps
    assert_eq!(swaps.len(), 5);
}

#[test]
fn test_plain_changes_permutations() {
    let n: u32 = 4;
    let mut perm: Vec<u32> = (0..n).collect();
    let mut permutations: Vec<Vec<u32>> = vec![perm.clone()];

    for swap_idx in plain_changes(n) {
        perm.swap(swap_idx as usize, swap_idx as usize + 1);
        permutations.push(perm.clone());
    }

    // Should generate n! permutations
    assert_eq!(permutations.len(), 24); // 4! = 24

    // All permutations should be unique
    let mut sorted = permutations.clone();
    sorted.sort();
    sorted.dedup();
    assert_eq!(sorted.len(), 24);
}

#[test]
fn test_adjacent_swaps() {
    let n: u32 = 4;
    let swaps: Vec<u32> = sjt_gen(n);

    // All swaps should be between adjacent elements
    for &swap_idx in &swaps {
        assert!(swap_idx < n - 1);
    }

    // Consecutive permutations should differ by exactly one adjacent swap
    let mut perm: Vec<u32> = (0..n).collect();
    let mut prev_perm = perm.clone();

    for &swap_idx in &swaps {
        perm.swap(swap_idx as usize, swap_idx as usize + 1);

        // Count differences
        let diff_count: usize = prev_perm
            .iter()
            .zip(perm.iter())
            .filter(|(a, b)| a != b)
            .count();

        assert_eq!(
            diff_count, 2,
            "Should differ by exactly 2 elements (one swap)"
        );
        prev_perm = perm.clone();
    }
}

#[test]
fn test_sjt_counts() {
    // Cyclic mode: n! swaps; plain mode: n! - 1 swaps.
    let mut factorial: usize = 1;
    for n in 1..8u32 {
        factorial *= n as usize;
        if n >= 2 {
            assert_eq!(sjt_gen(n).len(), factorial);
        }
        assert_eq!(plain_changes(n).len() + 1, factorial);
    }
}

#[test]
fn test_sjt_deterministic() {
    assert_eq!(sjt_gen(5), sjt_gen(5));
    assert_eq!(plain_changes(5), plain_changes(5));
}
