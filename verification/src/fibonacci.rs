//! The Fibonacci numbers by matrix exponentiation, by iteration, and by the
//! hybrid of both that splits the sequence into chunks.

use vstd::prelude::*;
use rayon::iter::{IntoParallelIterator, ParallelIterator};
use crate::bignat::{values, BigNat};
use crate::math::{lemma_fib_q_pow, matrix_pow, Matrix};
use crate::spec::{fib, fib_from, fib_seq, lemma_fib_from_fib, lemma_fib_from_start, lemma_fib_from_step};

verus! {

/// Each value of `s` is the Fibonacci number of its position counted from `first`:
/// `s[i]` denotes F(first + i).
pub open spec fn fib_run(s: Seq<BigNat>, first: nat) -> bool {
    forall|i: int| 0 <= i < s.len() ==> #[trigger] s[i]@ == fib((first + i) as nat)
}

/// Two runs that meet make one run.
pub proof fn lemma_fib_run_concat(s1: Seq<BigNat>, s2: Seq<BigNat>, first: nat)
    requires
        fib_run(s1, first),
        fib_run(s2, first + s1.len()),
    ensures
        fib_run(s1 + s2, first),
{
    assert forall|i: int| 0 <= i < (s1 + s2).len() implies #[trigger] (s1 + s2)[i]@ == fib(
        (first + i) as nat,
    ) by {
        if i >= s1.len() {
            assert((s1 + s2)[i] == s2[i - s1.len()]);
        }
    }
}

/// A run of Fibonacci numbers from F(0) holds exactly the first Fibonacci numbers,
/// so every way of computing the sequence gives the same numbers.
pub proof fn lemma_fib_run_is_fib_seq(s: Seq<BigNat>, count: nat)
    requires
        s.len() == count,
        fib_run(s, 0),
    ensures
        values(s) == fib_seq(count),
{
    assert(values(s) =~= fib_seq(count));
}

/// F(n - 1) and F(n), by raising the Fibonacci matrix `[[1, 1], [1, 0]]` to the
/// power `n`; for `n = 0` the pair is (0, 1).
pub fn fibonacci_matrix(n: usize) -> (r: (BigNat, BigNat))
    ensures
        n >= 1 ==> r.0@ == fib((n - 1) as nat) && r.1@ == fib(n as nat),
        n == 0 ==> r.0@ == 0 && r.1@ == 1,
{
    if n == 0 {
        return (BigNat::zero(), BigNat::one());
    }
    let base_matrix = Matrix { a: BigNat::one(), b: BigNat::one(), c: BigNat::one(), d: BigNat::zero() };
    let result_matrix = matrix_pow(base_matrix, n);
    proof {
        lemma_fib_q_pow(n as nat);
    }
    (result_matrix.d, result_matrix.c)
}

/// `n_steps` numbers that follow the Fibonacci rule from `f_n1` and `f_n`,
/// starting with `f_n`: for F(n - 1) and F(n) these are F(n), ..., F(n + n_steps - 1).
pub fn fibonacci_chunk(n_steps: usize, f_n1: BigNat, f_n: BigNat) -> (r: Vec<BigNat>)
    ensures
        r@.len() == n_steps,
        forall|k: int| 0 <= k < n_steps ==> #[trigger] r@[k]@ == fib_from(f_n1@, f_n@, (k + 1) as nat),
        n_steps >= 1 ==> r@[0]@ == f_n@,
        n_steps >= 2 ==> r@[1]@ == f_n1@ + f_n@,
        forall|k: int| 0 <= k && k + 2 < n_steps ==> #[trigger] r@[k + 2]@ == r@[k]@ + r@[k + 1]@,
{
    let ghost (a0, b0) = (f_n1@, f_n@);
    let mut fibs: Vec<BigNat> = Vec::with_capacity(n_steps);
    let mut a = f_n1;
    let mut b = f_n;
    let mut i: usize = 0;
    proof {
        reveal_with_fuel(fib_from, 2);
    }
    while i < n_steps
        invariant
            i <= n_steps,
            fibs@.len() == i,
            a@ == fib_from(a0, b0, i as nat),
            b@ == fib_from(a0, b0, (i + 1) as nat),
            forall|k: int| 0 <= k < i ==> #[trigger] fibs@[k]@ == fib_from(a0, b0, (k + 1) as nat),
        decreases n_steps - i,
    {
        let next = a.add(&b);
        proof {
            lemma_fib_from_step(a0, b0, i as nat);
        }
        fibs.push(b.clone());
        a = b;
        b = next;
        i = i + 1;
    }
    proof {
        lemma_fib_from_start(a0, b0);
        lemma_fib_from_step(a0, b0, 0);
        assert forall|k: int| 0 <= k && k + 2 < n_steps implies #[trigger] fibs@[k + 2]@ == fibs@[k]@
            + fibs@[k + 1]@ by {
            lemma_fib_from_step(a0, b0, (k + 1) as nat);
            assert(fibs@[k]@ == fib_from(a0, b0, (k + 1) as nat));
            assert(fibs@[k + 1]@ == fib_from(a0, b0, (k + 2) as nat));
        }
    }
    fibs
}

/// The first `count` Fibonacci numbers, F(0) first, each the sum of the two before it.
pub fn seq_basic(count: usize) -> (r: Vec<BigNat>)
    requires
        count >= 2,
    ensures
        r@.len() == count,
        fib_run(r@, 0),
{
    let mut fib_sequence: Vec<BigNat> = Vec::with_capacity(count);
    fib_sequence.push(BigNat::zero());
    fib_sequence.push(BigNat::one());
    proof {
        reveal_with_fuel(fib, 2);
    }
    let mut i: usize = 2;
    while i < count
        invariant
            2 <= i <= count,
            fib_sequence@.len() == i,
            fib_run(fib_sequence@, 0),
        decreases count - i,
    {
        let next_value = fib_sequence[i - 1].add(&fib_sequence[i - 2]);
        proof {
            assert(fib_sequence@[i - 1]@ == fib((i - 1) as nat));
            assert(fib_sequence@[i - 2]@ == fib((i - 2) as nat));
        }
        fib_sequence.push(next_value);
        i = i + 1;
    }
    fib_sequence
}

/// The last position of the chunk that starts at `start`: `chunk_size` positions
/// on, or the last position below `count`, whichever comes first.
pub open spec fn chunk_last(start: nat, count: nat, chunk_size: nat) -> nat {
    if start + chunk_size <= count {
        (start + chunk_size - 1) as nat
    } else {
        (count - 1) as nat
    }
}

/// The chunk of the sequence that starts at position `start`: F(start), ...,
/// F(chunk_last), computed from F(start - 1) and F(start) by the matrix power.
pub fn hybrid_chunk(start: usize, count: usize, chunk_size: usize) -> (r: Vec<BigNat>)
    requires
        2 <= start < count,
        chunk_size >= 1,
    ensures
        r@.len() == chunk_last(start as nat, count as nat, chunk_size as nat) - start + 1,
        chunk_size <= count - start ==> r@.len() == chunk_size,
        chunk_size > count - start ==> r@.len() == count - start,
        fib_run(r@, start as nat),
        forall|k: int| 0 <= k < r@.len() ==> #[trigger] r@[k]@ == fib((start + k) as nat),
{
    let end: usize = if chunk_size <= count - start {
        start + chunk_size - 1
    } else {
        count - 1
    };
    let (f_start_minus_1, f_start) = fibonacci_matrix(start);
    let chunk = fibonacci_chunk(end - start + 1, f_start_minus_1, f_start);
    proof {
        assert forall|k: int| 0 <= k < chunk@.len() implies #[trigger] chunk@[k]@ == fib(
            (start + k) as nat,
        ) by {
            lemma_fib_from_fib((start - 1) as nat, (k + 1) as nat);
            assert((start - 1) as nat + 1 == start);
        }
    }
    chunk
}

/// The first `count` Fibonacci numbers, chunk by chunk: each chunk of
/// `chunk_size` numbers starts from a matrix power and goes on by iteration.
pub fn seq_hybrid(count: usize, chunk_size: usize) -> (r: Vec<BigNat>)
    requires
        count >= 2,
        chunk_size >= 1,
    ensures
        r@.len() == count,
        fib_run(r@, 0),
{
    let mut result: Vec<BigNat> = Vec::new();
    result.push(BigNat::zero());
    result.push(BigNat::one());
    proof {
        reveal_with_fuel(fib, 2);
    }
    let mut start: usize = 2;
    while start < count
        invariant
            2 <= start <= count,
            chunk_size >= 1,
            result@.len() == start,
            fib_run(result@, 0),
        decreases count - start,
    {
        let mut chunk = hybrid_chunk(start, count, chunk_size);
        proof {
            lemma_fib_run_concat(result@, chunk@, 0);
        }
        result.append(&mut chunk);
        if chunk_size < count - start {
            start = start + chunk_size;
        } else {
            start = count;
        }
    }
    result
}

/// Where chunk `i` of the sequence starts: chunks of `chunk_size` positions after F(0), F(1).
pub open spec fn chunk_start(i: nat, chunk_size: nat) -> nat {
    2 + i * chunk_size
}

/// The number of positions in the sequence of length `count` that lie before `position`.
pub open spec fn covered(position: nat, count: nat) -> nat {
    if position <= count {
        position
    } else {
        count
    }
}

/// `chunk` is chunk `i` of the first `count` Fibonacci numbers cut into chunks of
/// `chunk_size`: it starts below `count` and holds F(start), ..., F(chunk_last).
pub open spec fn is_chunk(chunk: Seq<BigNat>, i: nat, count: nat, chunk_size: nat) -> bool {
    let start = chunk_start(i, chunk_size);
    &&& start < count
    &&& chunk.len() == chunk_last(start, count, chunk_size) - start + 1
    &&& fib_run(chunk, start)
}

/// The first chunk starts at 2, and consecutive chunks start `chunk_size` apart.
pub proof fn lemma_chunk_start_next(i: nat, chunk_size: nat)
    ensures
        chunk_start(0, chunk_size) == 2,
        chunk_start(i + 1, chunk_size) == chunk_start(i, chunk_size) + chunk_size,
{
    vstd::arithmetic::mul::lemma_mul_basics(chunk_size as int);
    vstd::arithmetic::mul::lemma_mul_is_distributive_add_other_way(chunk_size as int, i as int, 1);
}

/// The chunks that start at `starts`, computed in parallel by `rayon`:
/// `starts.into_par_iter().map(..).collect()`, where each start is mapped by
/// `hybrid_chunk`. Claimed: chunk `i` is the one that `hybrid_chunk` gives for
/// `starts[i]` (an indexed parallel iterator collects into a `Vec` in order).
#[verifier::external_body]
fn par_hybrid_chunks(starts: Vec<usize>, count: usize, chunk_size: usize) -> (r: Vec<Vec<BigNat>>)
    requires
        chunk_size >= 1,
        forall|i: int| 0 <= i < starts@.len() ==> 2 <= #[trigger] starts@[i] < count,
    ensures
        r@.len() == starts@.len(),
        forall|i: int|
            0 <= i < r@.len() ==> (#[trigger] r@[i])@.len() == chunk_last(
                starts@[i] as nat,
                count as nat,
                chunk_size as nat,
            ) - starts@[i] + 1 && fib_run(r@[i]@, starts@[i] as nat),
{
    starts.into_par_iter().map(|start| hybrid_chunk(start, count, chunk_size)).collect()
}

/// The first `count` Fibonacci numbers, chunk by chunk as in `seq_hybrid`, with the
/// chunks computed in parallel.
pub fn seq_hybrid_rayon(count: usize, chunk_size: usize) -> (r: Vec<BigNat>)
    requires
        count >= 2,
        chunk_size >= 1,
    ensures
        r@.len() == count,
        fib_run(r@, 0),
{
    let mut result: Vec<BigNat> = Vec::new();
    result.push(BigNat::zero());
    result.push(BigNat::one());
    proof {
        reveal_with_fuel(fib, 2);
    }
    let starts = chunk_starts(count, chunk_size);
    let mut chunks = par_hybrid_chunks(starts, count, chunk_size);
    let ghost all = chunks@;
    let n = chunks.len();
    let mut i: usize = 0;
    while i < n
        invariant
            n == all.len(),
            i <= n,
            chunk_size >= 1,
            chunks@ == all.subrange(i as int, n as int),
            result@.len() == covered(chunk_start(i as nat, chunk_size as nat), count as nat),
            fib_run(result@, 0),
            forall|j: int|
                0 <= j < all.len() ==> is_chunk(#[trigger] all[j]@, j as nat, count as nat, chunk_size as nat),
            chunk_start(n as nat, chunk_size as nat) >= count,
        decreases n - i,
    {
        let mut chunk = chunks.remove(0);
        proof {
            assert(chunk == all[i as int]);
            lemma_chunk_start_next(i as nat, chunk_size as nat);
            lemma_fib_run_concat(result@, chunk@, 0);
            assert(chunks@ =~= all.subrange(i + 1, n as int));
        }
        result.append(&mut chunk);
        i = i + 1;
    }
    result
}

/// The start of every chunk of the first `count` Fibonacci numbers cut into
/// chunks of `chunk_size`: `2, 2 + chunk_size, 2 + 2 * chunk_size, ...`, all below `count`.
pub fn chunk_starts(count: usize, chunk_size: usize) -> (r: Vec<usize>)
    requires
        chunk_size >= 1,
    ensures
        forall|i: int| 0 <= i < r@.len() ==> #[trigger] r@[i] == chunk_start(i as nat, chunk_size as nat),
        forall|i: int| 0 <= i < r@.len() ==> #[trigger] r@[i] < count,
        chunk_start(r@.len(), chunk_size as nat) >= count,
        count > 2 ==> r@.len() > 0 && r@[0] == 2,
        count <= 2 ==> r@.len() == 0,
        forall|i: int| 0 <= i && i + 1 < r@.len() ==> #[trigger] r@[i + 1] == r@[i] + chunk_size,
        r@.len() > 0 ==> r@.last() + chunk_size >= count,
{
    let mut starts: Vec<usize> = Vec::new();
    let mut start: usize = 2;
    while start < count
        invariant
            chunk_size >= 1,
            start == chunk_start(starts@.len(), chunk_size as nat) || (start == count && chunk_start(
                starts@.len(),
                chunk_size as nat,
            ) >= count),
            forall|i: int| 0 <= i < starts@.len() ==> #[trigger] starts@[i] == chunk_start(i as nat, chunk_size as nat),
            forall|i: int| 0 <= i < starts@.len() ==> #[trigger] starts@[i] < count,
        decreases count - start,
    {
        proof {
            lemma_chunk_start_next(starts@.len(), chunk_size as nat);
        }
        starts.push(start);
        if chunk_size < count - start {
            start = start + chunk_size;
        } else {
            start = count;
        }
    }
    proof {
        vstd::arithmetic::mul::lemma_mul_basics(chunk_size as int);
        assert(chunk_start(0, chunk_size as nat) == 2);
        assert forall|i: int| 0 <= i && i + 1 < starts@.len() implies #[trigger] starts@[i + 1]
            == starts@[i] + chunk_size by {
            lemma_chunk_start_next(i as nat, chunk_size as nat);
            assert(starts@[i] == chunk_start(i as nat, chunk_size as nat));
            assert(starts@[i + 1] == chunk_start((i + 1) as nat, chunk_size as nat));
        }
        if starts@.len() > 0 {
            let l = (starts@.len() - 1) as nat;
            lemma_chunk_start_next(l, chunk_size as nat);
            assert(starts@[l as int] == chunk_start(l, chunk_size as nat));
        }
    }
    starts
}

} // verus!
