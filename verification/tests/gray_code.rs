use rust_ai::gray_code::brgc;
use rust_ai::gray_code::brgc_gen;

#[test]
fn test_brgc_gen() {
    let flips: Vec<u32> = brgc_gen(4);
    let expected: Vec<u32> = vec![0, 1, 0, 2, 0, 1, 0, 3, 0, 1, 0, 2, 0, 1, 0];
    assert_eq!(flips, expected);
}

#[test]
fn test_brgc_gen_1() {
    let flips: Vec<u32> = brgc_gen(1);
    assert_eq!(flips, vec![0]);
}

#[test]
fn test_brgc_gen_2() {
    let flips: Vec<u32> = brgc_gen(2);
    assert_eq!(flips, vec![0, 1, 0]);
}

#[test]
fn test_brgc() {
    let codes: Vec<Vec<u8>> = brgc(3);
    assert_eq!(codes.len(), 8); // 2^3 = 8 codes

    // Check first few codes
    assert_eq!(codes[0], vec![0, 0, 0]);
    assert_eq!(codes[1], vec![1, 0, 0]);
    assert_eq!(codes[2], vec![1, 1, 0]);
    assert_eq!(codes[3], vec![0, 1, 0]);

    // Verify Gray code property: consecutive codes differ by exactly one bit
    for i in 0..codes.len() - 1 {
        let diff_count: usize = codes[i]
            .iter()
            .zip(codes[i + 1].iter())
            .filter(|(a, b)| a != b)
            .count();
        assert_eq!(diff_count, 1, "Codes at positions {} and {} differ by {} bits", i, i + 1, diff_count);
    }
}

#[test]
fn test_brgc_4() {
    let codes: Vec<Vec<u8>> = brgc(4);
    assert_eq!(codes.len(), 16); // 2^4 = 16 codes

    // Verify all codes are unique
    let mut sorted = codes.clone();
    sorted.sort();
    sorted.dedup();
    assert_eq!(sorted.len(), codes.len());
}

#[test]
fn test_brgc_gen_replay_distinct() {
    // Replaying the flips over the all-zero string visits 2^n distinct
    // strings, consecutive ones differing in exactly one bit.
    let n: usize = 5;
    let flips: Vec<u32> = brgc_gen(n as u32);
    assert_eq!(flips.len() + 1, 1usize << n);
    let mut state: Vec<u8> = vec![0; n];
    let mut seen: Vec<Vec<u8>> = vec![state.clone()];
    for &f in &flips {
        assert!((f as usize) < n);
        state[f as usize] = 1 - state[f as usize];
        seen.push(state.clone());
    }
    let mut sorted = seen.clone();
    sorted.sort();
    sorted.dedup();
    assert_eq!(sorted.len(), seen.len());
}

#[test]
fn test_brgc_gen_deterministic() {
    assert_eq!(brgc_gen(6), brgc_gen(6));
    assert_eq!(brgc(4), brgc(4));
}

#[test]
fn test_brgc_zero_width() {
    // n = 0: no flips, and the wrapper yields the single empty string.
    assert_eq!(brgc_gen(0).len(), 0);
    let codes: Vec<Vec<u8>> = brgc(0);
    assert_eq!(codes.len(), 1);
    assert_eq!(codes[0].len(), 0);
}
