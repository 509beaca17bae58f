use rust_ai::ehr::ehr_gen;

#[test]
fn test_ehr_gen() {
    let swaps: Vec<u32> = ehr_gen(4);
    assert_eq!(swaps.len(), 23); // 4! - 1 swaps

    // Check first few swaps
    assert_eq!(swaps[0], 1);
    assert_eq!(swaps[1], 2);
    assert_eq!(swaps[2], 1);
}

#[test]
fn test_ehr_gen_small() {
    let swaps: Vec<u32> = ehr_gen(2);
    assert_eq!(swaps, vec![1]);

    let swaps: Vec<u32> = ehr_gen(1);
    assert_eq!(swaps.len(), 0);

    let swaps: Vec<u32> = ehr_gen(0);
    assert_eq!(swaps.len(), 0);
}

#[test]
fn test_ehr_gen_permutations() {
    let n: u32 = 3;
    let mut perm: Vec<u32> = (0..n).collect();
    let mut permutations: Vec<Vec<u32>> = vec![perm.clone()];

    for swap_idx in ehr_gen(n) {
        perm.swap(0, swap_idx as usize);
        permutations.push(perm.clone());
    }

    // Should generate n! permutations
    assert_eq!(permutations.len(), 6); // 3! = 6

    // All permutations should be unique
    let mut sorted = permutations.clone();
    sorted.sort();
    sorted.dedup();
    assert_eq!(sorted.len(), 6);
}

#[test]
fn test_ehr_gen_1() {
    let swaps: Vec<u32> = ehr_gen(1);
    assert_eq!(swaps.len(), 0);
}

#[test]
fn test_ehr_gen_0() {
    let swaps: Vec<u32> = ehr_gen(0);
    assert_eq!(swaps.len(), 0);
}

#[test]
fn test_ehr_gen_permutations_4() {
    // Replaying swap-with-0 over [0, 1, 2, 3] produces all 24 permutations.
    let n: u32 = 4;
    let mut perm: Vec<u32> = (0..n).collect();
    let mut permutations: Vec<Vec<u32>> = vec![perm.clone()];

    for swap_idx in ehr_gen(n) {
        perm.swap(0, swap_idx as usize);
        permutations.push(perm.clone());
    }

    assert_eq!(permutations.len(), 24);
    let mut sorted = permutations.clone();
    sorted.sort();
    sorted.dedup();
    assert_eq!(sorted.len(), 24);
}

#[test]
fn test_ehr_gen_count() {
    // Sequence length + 1 equals n! for every size.
    let mut factorial: usize = 1;
    for n in 1..8u32 {
        factorial *= n as usize;
        assert_eq!(ehr_gen(n).len() + 1, factorial);
    }
}

#[test]
fn test_ehr_gen_deterministic() {
    assert_eq!(ehr_gen(5), ehr_gen(5));
}

#[test]
fn test_ehr_gen_range() {
    // Every emitted index names a slot other than the anchor.
    let n: u32 = 5;
    for x in ehr_gen(n) {
        assert!(1 <= x && x < n);
    }
}
