use rust_ai::combin::comb;

#[test]
fn test_comb() {
    assert_eq!(comb(6, 3), 20);
    assert_eq!(comb(6, 4), comb(6, 2));
    assert_eq!(comb(6, 5), comb(6, 1));
    assert_eq!(comb(6, 6), comb(6, 0));
    assert_eq!(comb(5, 2), 10);
    assert_eq!(comb(5, 3), 10);
}

#[test]
fn test_comb_edges() {
    assert_eq!(comb(0, 0), 1);
    assert_eq!(comb(1, 0), 1);
    assert_eq!(comb(1, 1), 1);
    assert_eq!(comb(4, 7), 1);
    assert_eq!(comb(10, 1), 10);
    assert_eq!(comb(10, 9), 10);
    assert_eq!(comb(10, 5), 252);
}
