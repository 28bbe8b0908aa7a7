use fibonacci_assesment::bignat::BigNat;
use fibonacci_assesment::fibonacci::{seq_basic, seq_hybrid, seq_hybrid_rayon};
use num_bigint::BigUint;

fn to_biguint(x: &BigNat) -> BigUint {
    BigUint::new(x.to_u32_digits())
}

fn to_biguints(xs: &[BigNat]) -> Vec<BigUint> {
    xs.iter().map(to_biguint).collect()
}

fn test_fibonacci_20_sync<F: Fn(usize) -> Vec<BigNat>>(fib_fn: F) {
    let fib_sequence = fib_fn(20);
    verify_fibonacci_20_sequence(to_biguints(&fib_sequence));
}

fn verify_fibonacci_20_sequence(fib_sequence: Vec<BigUint>) {
    let expected_u32_sequence = vec![
        0u32, 1, 1, 2, 3, 5, 8, 13, 21, 34, 55, 89, 144, 233, 377, 610, 987, 1597, 2584, 4181,
    ];
    let expected_sequence: Vec<BigUint> =
        expected_u32_sequence.into_iter().map(Into::into).collect();
    assert_eq!(
        fib_sequence, expected_sequence,
        "Computed sequence must match expected sequence"
    );
}

const N: usize = 99999;

fn test_fibonacci_100000_sync<F: Fn(usize) -> Vec<BigNat>>(fib_fn: F) {
    let fib_sequence = fib_fn(N);
    verify_fibonacci_100000_sequence(&fib_sequence);
}

/// The reference values are the Fibonacci numbers F(0), ..., F(N - 1), produced
/// here one after another with `num-bigint` alone.
fn verify_fibonacci_100000_sequence(fib_sequence: &[BigNat]) {
    assert_eq!(fib_sequence.len(), N);
    let mut a = BigUint::from(0u32);
    let mut b = BigUint::from(1u32);
    for (i, fib) in fib_sequence.iter().enumerate() {
        assert_eq!(fib.to_u32_digits(), a.to_u32_digits(), "Mismatch at index {i}");
        let next = &a + &b;
        a = b;
        b = next;
    }
}

#[test]
fn test_fibonacci_basic_100000() {
    test_fibonacci_100000_sync(seq_basic)
}

#[test]
fn test_fibonacci_hybrid_rayon_100000() {
    test_fibonacci_100000_sync(|n| seq_hybrid_rayon(n, 10000))
}

#[test]
fn test_fibonacci_hybrid_100000() {
    test_fibonacci_100000_sync(|n| seq_hybrid(n, 10000))
}

#[test]
fn test_fibonacci_basic_20() {
    test_fibonacci_20_sync(seq_basic)
}

#[test]
fn test_fibonacci_hybrid_rayon_20() {
    test_fibonacci_20_sync(|n| seq_hybrid_rayon(n, 10000))
}

#[test]
fn test_fibonacci_hybrid_20() {
    test_fibonacci_20_sync(|n| seq_hybrid(n, 10000))
}
