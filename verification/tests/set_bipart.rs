use rust_ai::set_bipart::set_bipart;
use rust_ai::set_bipart::stirling2nd2;

#[test]
fn test_stirling2nd2() {
    assert_eq!(stirling2nd2(1), 1);
    assert_eq!(stirling2nd2(2), 1);
    assert_eq!(stirling2nd2(3), 3);
    assert_eq!(stirling2nd2(4), 7);
    assert_eq!(stirling2nd2(5), 15);
    assert_eq!(stirling2nd2(6), 31);
}

#[test]
fn set_bipart_test_stirling2nd2() {
    assert_eq!(stirling2nd2(1), 1);
    assert_eq!(stirling2nd2(2), 1);
    assert_eq!(stirling2nd2(3), 3); // 1 + 2*1
    assert_eq!(stirling2nd2(4), 7); // 1 + 2*3
    assert_eq!(stirling2nd2(5), 15); // 1 + 2*7
}

#[test]
fn test_set_bipart() {
    let n: u32 = 5;
    let moves: Vec<u32> = set_bipart(n);

    // Should generate 2^(n-1) - 2 moves (all bipartitions except the start)
    assert_eq!(moves.len(), 14);

    // Test that moves generate valid bipartitions
    let mut b: Vec<u32> = vec![0; (n + 1) as usize];
    b[n as usize] = 1;
    let mut bipartitions: Vec<Vec<u32>> = vec![b[1..].to_vec()];

    for &x in &moves {
        b[x as usize] = 1 - b[x as usize];
        bipartitions.push(b[1..].to_vec());
    }

    // All bipartitions should be unique
    let mut sorted = bipartitions.clone();
    sorted.sort();
    sorted.dedup();
    assert_eq!(sorted.len(), bipartitions.len());
}

#[test]
fn test_set_bipart_small() {
    let moves: Vec<u32> = set_bipart(2);
    assert_eq!(moves.len(), 0); // n < 3 returns empty

    let moves: Vec<u32> = set_bipart(3);
    assert_eq!(moves.len(), 2);
}

#[test]
fn set_bipart_test_set_bipart_small() {
    let moves: Vec<u32> = set_bipart(2);
    assert_eq!(moves.len(), 0);

    let moves: Vec<u32> = set_bipart(1);
    assert_eq!(moves.len(), 0);

    let moves: Vec<u32> = set_bipart(0);
    assert_eq!(moves.len(), 0);
}

#[test]
fn test_set_bipart_count() {
    // Sequence length + 1 equals S(n, 2) for every size.
    for n in 0..10u32 {
        assert_eq!(set_bipart(n).len() as u32 + 1, stirling2nd2(n));
    }
}

#[test]
fn test_set_bipart_deterministic() {
    assert_eq!(set_bipart(6), set_bipart(6));
}
