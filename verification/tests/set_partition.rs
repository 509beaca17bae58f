use rust_ai::set_partition::set_partition;
use rust_ai::set_partition::stirling2nd;

#[test]
fn test_stirling2nd() {
    assert_eq!(stirling2nd(5, 2), 15);
    assert_eq!(stirling2nd(4, 2), 7);
    assert_eq!(stirling2nd(3, 2), 3);
    assert_eq!(stirling2nd(2, 2), 1);
    assert_eq!(stirling2nd(1, 1), 1);
    assert_eq!(stirling2nd(5, 5), 1);
    assert_eq!(stirling2nd(5, 6), 1); // k >= n
}

#[test]
fn set_partition_test_stirling2nd() {
    assert_eq!(stirling2nd(5, 2), 15);
    assert_eq!(stirling2nd(4, 2), 7);
    assert_eq!(stirling2nd(3, 2), 3);
    assert_eq!(stirling2nd(2, 2), 1);
    assert_eq!(stirling2nd(1, 1), 1);
}

#[test]
fn test_stirling2nd_symmetry() {
    // S(n,1) = 1 for all n >= 1
    assert_eq!(stirling2nd(5, 1), 1);
    assert_eq!(stirling2nd(10, 1), 1);
    assert_eq!(stirling2nd(1, 1), 1);
}

#[test]
fn test_set_partition_small() {
    let moves: Vec<(u32, u32)> = set_partition(5, 2);
    assert_eq!(moves.len(), 14); // S(5,2) - 1 moves

    // Test that moves generate valid partitions
    let (n, k): (u32, u32) = (5, 2);
    let mut b: Vec<u32> = vec![0; (n - k + 1) as usize];
    b.extend(0..k);
    let mut partitions: Vec<Vec<u32>> = vec![b[1..].to_vec()];

    for &(x, y) in &moves {
        b[x as usize] = y;
        partitions.push(b[1..].to_vec());
    }

    // Should generate S(5,2) = 15 partitions
    assert_eq!(partitions.len(), 15);

    // All partitions should be unique
    let mut sorted = partitions.clone();
    sorted.sort();
    sorted.dedup();
    assert_eq!(sorted.len(), 15);
}

#[test]
fn test_set_partition_edge_cases() {
    // k >= n should return empty
    let moves: Vec<(u32, u32)> = set_partition(5, 5);
    assert_eq!(moves.len(), 0);

    // k <= 1 should return empty
    let moves: Vec<(u32, u32)> = set_partition(5, 1);
    assert_eq!(moves.len(), 0);

    // n < k should return empty
    let moves: Vec<(u32, u32)> = set_partition(3, 5);
    assert_eq!(moves.len(), 0);
}

#[test]
fn test_set_partition_invalid() {
    let moves: Vec<(u32, u32)> = set_partition(5, 1);
    assert_eq!(moves.len(), 0);

    let moves: Vec<(u32, u32)> = set_partition(5, 5);
    assert_eq!(moves.len(), 0);

    let moves: Vec<(u32, u32)> = set_partition(5, 6);
    assert_eq!(moves.len(), 0);
}

#[test]
fn test_set_partition_two_block_counts() {
    // For two blocks the move count matches the bipartition count.
    for n in 3..10u32 {
        assert_eq!(set_partition(n, 2).len() as u64 + 1, stirling2nd(n, 2));
    }
}

#[test]
fn test_set_partition_two_blocks_matches_bipart() {
    // For two blocks the engine emits the bipartition engine's elements,
    // and replaying the assignments walks the same states as replaying the
    // bipartition engine's relocations.
    let n: u32 = 6;
    let moves: Vec<(u32, u32)> = set_partition(n, 2);
    let bimoves: Vec<u32> = rust_ai::set_bipart::set_bipart(n);
    let elements: Vec<u32> = moves.iter().map(|p| p.0).collect();
    assert_eq!(elements, bimoves);

    let mut assigned: Vec<u32> = vec![0; (n + 1) as usize];
    assigned[n as usize] = 1;
    let mut toggled = assigned.clone();
    for (i, &(x, y)) in moves.iter().enumerate() {
        assigned[x as usize] = y;
        toggled[bimoves[i] as usize] = 1 - toggled[bimoves[i] as usize];
        assert_eq!(assigned, toggled);
    }
}

#[test]
fn test_set_partition_deterministic() {
    assert_eq!(set_partition(6, 2), set_partition(6, 2));
    assert_eq!(set_partition(7, 4), set_partition(7, 4));
}
