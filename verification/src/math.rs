//! 2x2 matrices of natural numbers: multiplication and exponentiation by squaring.

use vstd::prelude::*;
use crate::bignat::BigNat;
use crate::spec::fib;
use vstd::arithmetic::mul::{
    lemma_mul_is_associative,
    lemma_mul_is_distributive_add,
    lemma_mul_is_distributive_add_other_way,
};

verus! {

/// A 2x2 matrix of natural numbers, row by row: `[[a, b], [c, d]]`.
pub struct Mat2 {
    pub a: nat,
    pub b: nat,
    pub c: nat,
    pub d: nat,
}

/// The identity matrix.
pub open spec fn mat_identity() -> Mat2 {
    Mat2 { a: 1, b: 0, c: 0, d: 1 }
}

/// The matrix product `x * y`.
pub open spec fn mat_mul(x: Mat2, y: Mat2) -> Mat2 {
    Mat2 {
        a: x.a * y.a + x.b * y.c,
        b: x.a * y.b + x.b * y.d,
        c: x.c * y.a + x.d * y.c,
        d: x.c * y.b + x.d * y.d,
    }
}

/// `m` raised to the power `e`: the product of `e` copies of `m`.
pub open spec fn mat_pow(m: Mat2, e: nat) -> Mat2
    decreases e,
{
    if e == 0 {
        mat_identity()
    } else {
        mat_mul(m, mat_pow(m, (e - 1) as nat))
    }
}

/// The Fibonacci matrix `[[1, 1], [1, 0]]`.
pub open spec fn fib_q() -> Mat2 {
    Mat2 { a: 1, b: 1, c: 1, d: 0 }
}

/// Each entry of a product is a row of the first matrix times a column of the
/// second: row `i` of `x` against column `j` of `y` gives entry `(i, j)`.
pub proof fn lemma_mat_mul_entries(x: Mat2, y: Mat2)
    ensures
        mat_mul(x, y).a == x.a * y.a + x.b * y.c,
        mat_mul(x, y).b == x.a * y.b + x.b * y.d,
        mat_mul(x, y).c == x.c * y.a + x.d * y.c,
        mat_mul(x, y).d == x.c * y.b + x.d * y.d,
{
}

/// The zeroth power is the identity, the first power is the matrix itself, and the
/// square has the entries of the matrix times itself, for every matrix.
pub proof fn lemma_mat_pow_small(m: Mat2)
    ensures
        mat_pow(m, 0) == (Mat2 { a: 1, b: 0, c: 0, d: 1 }),
        mat_pow(m, 1) == m,
        mat_pow(m, 2) == (Mat2 {
            a: m.a * m.a + m.b * m.c,
            b: m.a * m.b + m.b * m.d,
            c: m.c * m.a + m.d * m.c,
            d: m.c * m.b + m.d * m.d,
        }),
{
    reveal_with_fuel(mat_pow, 3);
    lemma_mat_mul_identity(m);
}

/// One entry of a product of three matrices does not depend on how the product is grouped.
proof fn lemma_assoc_entry(p: int, q: int, r: int, s: int, t: int, w: int, u: int, v: int)
    ensures
        (p * r + q * t) * u + (p * s + q * w) * v == p * (r * u + s * v) + q * (t * u + w * v),
{
    lemma_mul_is_distributive_add_other_way(u, p * r, q * t);
    lemma_mul_is_distributive_add_other_way(v, p * s, q * w);
    lemma_mul_is_distributive_add(p, r * u, s * v);
    lemma_mul_is_distributive_add(q, t * u, w * v);
    lemma_mul_is_associative(p, r, u);
    lemma_mul_is_associative(q, t, u);
    lemma_mul_is_associative(p, s, v);
    lemma_mul_is_associative(q, w, v);
}

/// Matrix multiplication is associative.
pub proof fn lemma_mat_mul_assoc(x: Mat2, y: Mat2, z: Mat2)
    ensures
        mat_mul(mat_mul(x, y), z) == mat_mul(x, mat_mul(y, z)),
{
    lemma_assoc_entry(x.a as int, x.b as int, y.a as int, y.b as int, y.c as int, y.d as int, z.a as int, z.c as int);
    lemma_assoc_entry(x.a as int, x.b as int, y.a as int, y.b as int, y.c as int, y.d as int, z.b as int, z.d as int);
    lemma_assoc_entry(x.c as int, x.d as int, y.a as int, y.b as int, y.c as int, y.d as int, z.a as int, z.c as int);
    lemma_assoc_entry(x.c as int, x.d as int, y.a as int, y.b as int, y.c as int, y.d as int, z.b as int, z.d as int);
}

/// The identity matrix is neutral on both sides.
pub proof fn lemma_mat_mul_identity(m: Mat2)
    ensures
        mat_mul(mat_identity(), m) == m,
        mat_mul(m, mat_identity()) == m,
{
}

/// Powers add: `m^(i + j) = m^i * m^j`.
pub proof fn lemma_mat_pow_add(m: Mat2, i: nat, j: nat)
    ensures
        mat_pow(m, i + j) == mat_mul(mat_pow(m, i), mat_pow(m, j)),
    decreases i,
{
    if i == 0 {
        lemma_mat_mul_identity(mat_pow(m, j));
    } else {
        lemma_mat_pow_add(m, (i - 1) as nat, j);
        assert((i + j - 1) as nat == (i - 1) as nat + j);
        lemma_mat_mul_assoc(m, mat_pow(m, (i - 1) as nat), mat_pow(m, j));
    }
}

/// Squaring first halves the exponent: `(m * m)^k = m^(2k)`.
pub proof fn lemma_mat_pow_square(m: Mat2, k: nat)
    ensures
        mat_pow(mat_mul(m, m), k) == mat_pow(m, 2 * k),
    decreases k,
{
    if k > 0 {
        let mm = mat_mul(m, m);
        lemma_mat_pow_square(m, (k - 1) as nat);
        lemma_mat_mul_identity(m);
        assert(mat_pow(m, 0) == mat_identity());
        assert(mat_pow(m, 1) == m);
        assert(mat_pow(m, 2) == mm);
        lemma_mat_pow_add(m, 2, (2 * (k - 1)) as nat);
        assert(2 + 2 * (k - 1) == 2 * k);
        assert(mat_pow(mm, k) == mat_mul(mm, mat_pow(mm, (k - 1) as nat)));
    }
}

/// The powers of the Fibonacci matrix hold Fibonacci numbers:
/// `[[1, 1], [1, 0]]^n = [[F(n + 1), F(n)], [F(n), F(n - 1)]]` for `n >= 1`.
pub proof fn lemma_fib_q_pow(n: nat)
    requires
        n >= 1,
    ensures
        mat_pow(fib_q(), n) == (Mat2 {
            a: fib(n + 1),
            b: fib(n),
            c: fib(n),
            d: fib((n - 1) as nat),
        }),
    decreases n,
{
    if n == 1 {
        reveal_with_fuel(fib, 3);
        reveal_with_fuel(mat_pow, 2);
    } else {
        lemma_fib_q_pow((n - 1) as nat);
        let prev = mat_pow(fib_q(), (n - 1) as nat);
        assert(prev.a == fib(n) && prev.b == fib((n - 1) as nat));
        assert(prev.d == fib((n - 2) as nat));
        assert(mat_pow(fib_q(), n) == mat_mul(fib_q(), prev));
        assert(fib(n + 1) == fib((n - 1) as nat) + fib(n));
        assert(fib(n) == fib((n - 2) as nat) + fib((n - 1) as nat));
    }
}

/// A 2x2 matrix of natural numbers of unbounded size.
pub struct Matrix {
    pub a: BigNat,
    pub b: BigNat,
    pub c: BigNat,
    pub d: BigNat,
}

impl View for Matrix {
    type V = Mat2;

    open spec fn view(&self) -> Mat2 {
        Mat2 { a: self.a@, b: self.b@, c: self.c@, d: self.d@ }
    }
}

impl Clone for Matrix {
    fn clone(&self) -> (r: Self)
        ensures
            r@ == self@,
    {
        Matrix { a: self.a.clone(), b: self.b.clone(), c: self.c.clone(), d: self.d.clone() }
    }
}

/// The matrix product `m1 * m2`.
pub fn matrix_mult(m1: &Matrix, m2: &Matrix) -> (r: Matrix)
    ensures
        r@ == mat_mul(m1@, m2@),
        r.a@ == m1.a@ * m2.a@ + m1.b@ * m2.c@,
        r.b@ == m1.a@ * m2.b@ + m1.b@ * m2.d@,
        r.c@ == m1.c@ * m2.a@ + m1.d@ * m2.c@,
        r.d@ == m1.c@ * m2.b@ + m1.d@ * m2.d@,
{
    Matrix {
        a: m1.a.mul(&m2.a).add(&m1.b.mul(&m2.c)),
        b: m1.a.mul(&m2.b).add(&m1.b.mul(&m2.d)),
        c: m1.c.mul(&m2.a).add(&m1.d.mul(&m2.c)),
        d: m1.c.mul(&m2.b).add(&m1.d.mul(&m2.d)),
    }
}

/// `base` raised to the power `exp`, by repeated squaring: O(log exp) products.
pub fn matrix_pow(base: Matrix, exp: usize) -> (r: Matrix)
    ensures
        r@ == mat_pow(base@, exp as nat),
{
    let ghost target = mat_pow(base@, exp as nat);
    let mut base = base;
    let mut exp = exp;
    let mut result = Matrix { a: BigNat::one(), b: BigNat::zero(), c: BigNat::zero(), d: BigNat::one() };
    proof {
        lemma_mat_mul_identity(target);
    }
    while exp > 0
        invariant
            mat_mul(result@, mat_pow(base@, exp as nat)) == target,
        decreases exp,
    {
        let ghost (r0, b0, e0) = (result@, base@, exp as nat);
        let half: usize = exp / 2;
        proof {
            lemma_mat_pow_square(b0, half as nat);
        }
        if exp % 2 == 1 {
            proof {
                assert(e0 == 2 * half + 1);
                assert(mat_pow(b0, e0) == mat_mul(b0, mat_pow(b0, 2 * half as nat)));
                lemma_mat_mul_assoc(r0, b0, mat_pow(b0, 2 * half as nat));
            }
            result = matrix_mult(&result, &base);
        } else {
            assert(e0 == 2 * half);
        }
        base = matrix_mult(&base, &base);
        exp = half;
    }
    proof {
        lemma_mat_mul_identity(result@);
    }
    result
}

} // verus!
