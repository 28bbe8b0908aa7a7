# fibonacci_assesment

The first `count` Fibonacci numbers, of unbounded size, computed iteratively,
by 2x2 matrix exponentiation, and by a hybrid of both that cuts the sequence
into chunks (sequentially, or in parallel with `rayon`). The functions in
`src/` are verified with Verus against the mathematical Fibonacci sequence,
except three trusted wrappers whose contracts are assumed: `biguint_add` and
`biguint_mul` (`num-bigint` addition and multiplication) and `par_hybrid_chunks`
(the `rayon` parallel map over the chunk starts).

- `src/bignat.rs`: `BigNat`, a natural number held as base 2^32 digits; sums and
  products are computed by `num-bigint`.
- `src/spec.rs`: the Fibonacci numbers and sequences that follow the Fibonacci rule.
- `src/math.rs`: 2x2 matrices, their product and powers, and the Fibonacci matrix law.
- `src/fibonacci.rs`: `fibonacci_matrix`, `fibonacci_chunk`, `seq_basic`,
  `seq_hybrid`, `seq_hybrid_rayon`, and the chunk plan.
- `src/assemble.rs`: putting a sequence together from chunks computed elsewhere.
- `app/lib.rs`: the thread (`kanal`) and task (`tokio`) variants, which call the library.
