use rust_ai::skeleton::fib;

#[test]
fn test_fib() {
    assert_eq!(fib(1), 1);
    assert_eq!(fib(2), 1);
    assert_eq!(fib(3), 2);
    assert_eq!(fib(4), 3);
    assert_eq!(fib(5), 5);
    assert_eq!(fib(6), 8);
    assert_eq!(fib(7), 13);
    assert_eq!(fib(8), 21);
}

#[test]
fn skeleton_test_fib() {
    assert_eq!(fib(1), 1);
    assert_eq!(fib(2), 1);
    assert_eq!(fib(3), 2);
    assert_eq!(fib(4), 3);
    assert_eq!(fib(5), 5);
    assert_eq!(fib(6), 8);
    assert_eq!(fib(7), 13);
    assert_eq!(fib(8), 21);
}

#[test]
fn test_fib_large() {
    // Test that it doesn't overflow for reasonable values
    assert_eq!(fib(20), 6765);
    assert_eq!(fib(30), 832040);
}

#[test]
fn test_fib_deterministic() {
    assert_eq!(fib(40), fib(40));
}
