use fibonacci_assesment::assemble::{init_sequence, join_chunks, place_chunk, sort_by_start};
use fibonacci_assesment::bignat::BigNat;
use fibonacci_assesment::fibonacci::{
    chunk_starts, fibonacci_chunk, fibonacci_matrix, hybrid_chunk, seq_basic, seq_hybrid,
    seq_hybrid_rayon,
};
use fibonacci_assesment::math::{matrix_mult, matrix_pow, Matrix};
use num_bigint::BigUint;

fn big(x: u64) -> BigNat {
    BigNat::from_u64(x)
}

fn as_biguint(x: &BigNat) -> BigUint {
    BigUint::new(x.to_u32_digits())
}

fn matrix(a: u64, b: u64, c: u64, d: u64) -> Matrix {
    Matrix { a: big(a), b: big(b), c: big(c), d: big(d) }
}

fn entries(m: &Matrix) -> Vec<BigUint> {
    vec![as_biguint(&m.a), as_biguint(&m.b), as_biguint(&m.c), as_biguint(&m.d)]
}

fn small_entries(a: u32, b: u32, c: u32, d: u32) -> Vec<BigUint> {
    vec![a.into(), b.into(), c.into(), d.into()]
}

#[test]
fn bignat_digits_are_canonical() {
    assert_eq!(BigNat::zero().to_u32_digits(), Vec::<u32>::new());
    assert_eq!(BigNat::one().to_u32_digits(), vec![1]);
    assert_eq!(big(0).to_u32_digits(), Vec::<u32>::new());
    assert_eq!(big(4294967295).to_u32_digits(), vec![4294967295]);
    assert_eq!(big(4294967296).to_u32_digits(), vec![0, 1]);
    assert_eq!(big(112500000000).to_u32_digits(), vec![830850304, 26]);
}

#[test]
fn bignat_add_carries_into_new_digits() {
    let max = big(u64::MAX);
    let sum = max.add(&BigNat::one());
    assert_eq!(sum.to_u32_digits(), vec![0, 0, 1]);
    assert_eq!(big(20).add(&big(22)), big(42));
    assert_eq!(BigNat::zero().add(&BigNat::zero()), BigNat::zero());
}

#[test]
fn bignat_mul_of_large_numbers() {
    let x = big(u64::MAX);
    let product = x.mul(&x);
    let expected = BigUint::from(u64::MAX) * BigUint::from(u64::MAX);
    assert_eq!(as_biguint(&product), expected);
    assert_eq!(big(6).mul(&big(7)), big(42));
    assert_eq!(big(123456789).mul(&BigNat::zero()), BigNat::zero());
}

#[test]
fn bignat_clone_keeps_value() {
    let x = big(987654321987654321);
    assert_eq!(x.clone(), x);
}

#[test]
fn matrix_mult_is_the_matrix_product() {
    let p = matrix_mult(&matrix(1, 2, 3, 4), &matrix(5, 6, 7, 8));
    assert_eq!(entries(&p), small_entries(19, 22, 43, 50));
}

#[test]
fn matrix_mult_is_associative_on_an_example() {
    let (x, y, z) = (matrix(1, 2, 3, 4), matrix(0, 5, 7, 1), matrix(2, 9, 4, 3));
    let left = matrix_mult(&matrix_mult(&x, &y), &z);
    let right = matrix_mult(&x, &matrix_mult(&y, &z));
    assert_eq!(entries(&left), entries(&right));
}

#[test]
fn matrix_pow_of_fibonacci_matrix() {
    let q = matrix(1, 1, 1, 0);
    assert_eq!(entries(&matrix_pow(q.clone(), 0)), small_entries(1, 0, 0, 1));
    assert_eq!(entries(&matrix_pow(q.clone(), 1)), small_entries(1, 1, 1, 0));
    assert_eq!(entries(&matrix_pow(q.clone(), 10)), small_entries(89, 55, 55, 34));
    assert_eq!(entries(&matrix_pow(q, 11)), small_entries(144, 89, 89, 55));
}

#[test]
fn matrix_pow_of_diagonal_matrix() {
    let m = matrix(2, 0, 0, 3);
    assert_eq!(entries(&matrix_pow(m, 5)), small_entries(32, 0, 0, 243));
}

#[test]
fn matrix_pow_adds_exponents() {
    let m = matrix(1, 2, 0, 1);
    let whole = matrix_pow(m.clone(), 7);
    let split = matrix_mult(&matrix_pow(m.clone(), 3), &matrix_pow(m, 4));
    assert_eq!(entries(&whole), entries(&split));
    assert_eq!(entries(&whole), small_entries(1, 14, 0, 1));
}

#[test]
fn fibonacci_matrix_gives_previous_and_current_fibonacci_numbers() {
    assert_eq!(fibonacci_matrix(0), (big(0), big(1)));
    assert_eq!(fibonacci_matrix(1), (big(0), big(1)));
    assert_eq!(fibonacci_matrix(2), (big(1), big(1)));
    assert_eq!(fibonacci_matrix(6), (big(5), big(8)));
    assert_eq!(fibonacci_matrix(10), (big(34), big(55)));
    let (f92, f93) = fibonacci_matrix(93);
    assert_eq!(f92, big(7540113804746346429));
    assert_eq!(f93, big(12200160415121876738));
    let (_, f100) = fibonacci_matrix(100);
    assert_eq!(
        as_biguint(&f100),
        BigUint::parse_bytes(b"354224848179261915075", 10).unwrap()
    );
}

#[test]
fn chunks_placed_in_any_order_fill_the_sequence() {
    let count = 27;
    let chunk_size = 5;
    let mut result = init_sequence(count);
    let mut starts = chunk_starts(count, chunk_size);
    starts.reverse();
    starts.swap(0, 2);
    for start in starts {
        place_chunk(&mut result, start, hybrid_chunk(start, count, chunk_size));
    }
    assert_eq!(result, seq_basic(count));
}

#[test]
fn fibonacci_chunk_doc_example() {
    let chunk = fibonacci_chunk(4, big(5), big(8));
    assert_eq!(chunk, vec![big(8), big(13), big(21), big(34)]);
}

#[test]
fn fibonacci_chunk_from_other_starting_values() {
    // Lucas numbers: 2, 1, 3, 4, 7, 11
    let chunk = fibonacci_chunk(5, big(2), big(1));
    assert_eq!(chunk, vec![big(1), big(3), big(4), big(7), big(11)]);
    assert!(fibonacci_chunk(0, big(2), big(1)).is_empty());
}

#[test]
fn seq_basic_doc_example() {
    let fib_sequence = seq_basic(10);
    assert_eq!(fib_sequence[0], big(0));
    assert_eq!(fib_sequence[1], big(1));
    assert_eq!(fib_sequence[8], big(21));
    assert_eq!(fib_sequence[9], big(34));
}

#[test]
fn seq_basic_shortest_sequence() {
    assert_eq!(seq_basic(2), vec![big(0), big(1)]);
    assert_eq!(seq_basic(3), vec![big(0), big(1), big(1)]);
}

#[test]
fn seq_hybrid_readme_example() {
    let fib_sequence = seq_hybrid(100, 10);
    assert_eq!(
        as_biguint(&fib_sequence[99]),
        BigUint::parse_bytes(b"218922995834555169026", 10).unwrap()
    );
}

#[test]
fn all_methods_agree_for_every_chunk_size() {
    for count in 2..40usize {
        let basic = seq_basic(count);
        for chunk_size in [1usize, 2, 3, 7, 38, 39, 100, usize::MAX] {
            assert_eq!(seq_hybrid(count, chunk_size), basic, "hybrid {count} {chunk_size}");
            assert_eq!(seq_hybrid_rayon(count, chunk_size), basic, "rayon {count} {chunk_size}");
        }
    }
}

#[test]
fn hybrid_chunk_is_cut_at_the_end() {
    assert_eq!(hybrid_chunk(2, 5, 10), vec![big(1), big(2), big(3)]);
    assert_eq!(hybrid_chunk(5, 20, 3), vec![big(5), big(8), big(13)]);
    assert_eq!(hybrid_chunk(19, 20, 3), vec![big(4181)]);
}

#[test]
fn chunk_starts_step_by_chunk_size() {
    assert_eq!(chunk_starts(20, 7), vec![2, 9, 16]);
    assert_eq!(chunk_starts(16, 7), vec![2, 9]);
    assert_eq!(chunk_starts(3, 5), vec![2]);
    assert_eq!(chunk_starts(2, 5), Vec::<usize>::new());
    assert_eq!(chunk_starts(5, usize::MAX), vec![2]);
}

#[test]
fn init_sequence_then_place_chunks() {
    let mut result = init_sequence(6);
    assert_eq!(result, vec![big(0), big(1), big(0), big(0), big(0), big(0)]);
    place_chunk(&mut result, 4, vec![big(3), big(5)]);
    assert_eq!(result, vec![big(0), big(1), big(0), big(0), big(3), big(5)]);
    place_chunk(&mut result, 2, vec![big(1), big(2)]);
    assert_eq!(result, seq_basic(6));
    place_chunk(&mut result, 3, vec![]);
    assert_eq!(result, seq_basic(6));
}

#[test]
fn sort_by_start_is_stable() {
    let parts = vec![(3usize, 'a'), (1, 'b'), (3, 'c'), (2, 'd'), (1, 'e')];
    let sorted = sort_by_start(parts);
    assert_eq!(sorted, vec![(1, 'b'), (1, 'e'), (2, 'd'), (3, 'a'), (3, 'c')]);
    assert!(sort_by_start(Vec::<(usize, u8)>::new()).is_empty());
}

#[test]
fn chunks_in_any_order_are_sorted_and_joined() {
    let count = 30;
    let chunk_size = 4;
    let mut parts: Vec<(usize, Vec<BigNat>)> = chunk_starts(count, chunk_size)
        .into_iter()
        .map(|start| (start, hybrid_chunk(start, count, chunk_size)))
        .collect();
    parts.reverse();
    parts.swap(1, 4);
    let joined = join_chunks(sort_by_start(parts));
    assert_eq!(joined, seq_basic(count));
}

#[test]
fn join_chunks_keeps_the_given_order() {
    let parts = vec![(9usize, vec![big(7)]), (2, vec![big(5), big(6)])];
    assert_eq!(join_chunks(parts), vec![big(0), big(1), big(7), big(5), big(6)]);
    assert_eq!(join_chunks(Vec::new()), vec![big(0), big(1)]);
}
