//! The Fibonacci numbers, and the sequences that follow the Fibonacci rule
//! from any two starting values.

use vstd::prelude::*;

verus! {

/// The `n`-th Fibonacci number: F(0) = 0, F(1) = 1, F(n + 2) = F(n) + F(n + 1).
pub open spec fn fib(n: nat) -> nat
    decreases n,
{
    if n == 0 {
        0
    } else if n == 1 {
        1
    } else {
        fib((n - 2) as nat) + fib((n - 1) as nat)
    }
}

/// The first `count` Fibonacci numbers, F(0) first.
pub open spec fn fib_seq(count: nat) -> Seq<nat> {
    Seq::new(count, |i: int| fib(i as nat))
}

/// `fib_seq(count)` has `count` entries, entry `i` being F(i).
pub proof fn lemma_fib_seq_index(count: nat)
    ensures
        fib_seq(count).len() == count,
        forall|i: int| 0 <= i < count ==> #[trigger] fib_seq(count)[i] == fib(i as nat),
{
}

/// Term `k` of the sequence that starts with `a`, `b` and continues by adding
/// the two previous terms: term 0 is `a`, term 1 is `b`.
pub open spec fn fib_from(a: nat, b: nat, k: nat) -> nat
    decreases k,
{
    if k == 0 {
        a
    } else {
        fib_from(b, a + b, (k - 1) as nat)
    }
}

/// The Fibonacci numbers start 0, 1 and each later one is the sum of the two before it.
pub proof fn lemma_fib_rule(n: nat)
    ensures
        fib(0) == 0,
        fib(1) == 1,
        fib(n + 2) == fib(n) + fib(n + 1),
{
    reveal_with_fuel(fib, 2);
}

/// A sequence started from `a`, `b` has `a` and then `b` as its first two terms.
pub proof fn lemma_fib_from_start(a: nat, b: nat)
    ensures
        fib_from(a, b, 0) == a,
        fib_from(a, b, 1) == b,
{
    reveal_with_fuel(fib_from, 2);
}

/// A sequence started from `a`, `b` follows the Fibonacci rule: each term from
/// the third on is the sum of the two before it.
pub proof fn lemma_fib_from_step(a: nat, b: nat, k: nat)
    ensures
        fib_from(a, b, k + 2) == fib_from(a, b, k) + fib_from(a, b, k + 1),
    decreases k,
{
    reveal_with_fuel(fib_from, 3);
    if k > 0 {
        lemma_fib_from_step(b, a + b, (k - 1) as nat);
    }
}

/// Started from two consecutive Fibonacci numbers F(m), F(m + 1), the rule gives
/// the Fibonacci numbers that follow: term `k` is F(m + k).
pub proof fn lemma_fib_from_fib(m: nat, k: nat)
    ensures
        fib_from(fib(m), fib(m + 1), k) == fib(m + k),
    decreases k,
{
    if k > 0 {
        assert(fib(m + 2) == fib(m) + fib(m + 1));
        lemma_fib_from_fib(m + 1, (k - 1) as nat);
    }
}

} // verus!
