//! `BigNat`: a natural number of unbounded size, held as its base 2^32 digits,
//! least significant first. Addition and multiplication are done by `num-bigint`.

use vstd::prelude::*;
use num_bigint::BigUint;
use vstd::arithmetic::power::pow;

verus! {

/// The radix of a digit.
pub open spec fn radix() -> nat {
    0x1_0000_0000
}

/// The number that a little-endian sequence of base 2^32 digits denotes.
pub open spec fn digits_value(d: Seq<u32>) -> nat
    decreases d.len(),
{
    if d.len() == 0 {
        0
    } else {
        (d[0] + radix() * digits_value(d.drop_first())) as nat
    }
}

/// A digit sequence is canonical when it has no most significant zero digit,
/// so that every number has exactly one canonical sequence (zero has the empty one).
pub open spec fn canonical(d: Seq<u32>) -> bool {
    d.len() == 0 || d.last() != 0
}

/// A natural number of unbounded size.
#[derive(Debug, PartialEq, Eq)]
pub struct BigNat {
    digits: Vec<u32>,
}

impl BigNat {
    #[verifier::type_invariant]
    spec fn well_formed(self) -> bool {
        canonical(self.digits@)
    }

    /// The number this value denotes.
    pub closed spec fn value(&self) -> nat {
        digits_value(self.digits@)
    }

    /// Its digits, least significant first.
    pub closed spec fn digit_seq(&self) -> Seq<u32> {
        self.digits@
    }

    /// Zero.
    pub fn zero() -> (r: BigNat)
        ensures
            r@ == 0,
    {
        BigNat { digits: Vec::new() }
    }

    /// One.
    pub fn one() -> (r: BigNat)
        ensures
            r@ == 1,
    {
        let mut digits: Vec<u32> = Vec::new();
        digits.push(1);
        proof {
            reveal_with_fuel(digits_value, 2);
        }
        BigNat { digits }
    }

    /// The number `x`.
    pub fn from_u64(x: u64) -> (r: BigNat)
        ensures
            r@ == x,
    {
        let mut digits: Vec<u32> = Vec::new();
        let lo: u32 = (x % 0x1_0000_0000) as u32;
        let hi: u32 = (x / 0x1_0000_0000) as u32;
        proof {
            vstd::arithmetic::div_mod::lemma_fundamental_div_mod(x as int, 0x1_0000_0000);
            assert(x == lo + radix() * hi);
        }
        if hi != 0 {
            digits.push(lo);
            digits.push(hi);
            proof {
                reveal_with_fuel(digits_value, 3);
                assert(digits@.drop_first() =~= seq![hi]);
                assert(seq![hi].drop_first() =~= Seq::<u32>::empty());
            }
        } else if lo != 0 {
            digits.push(lo);
            proof {
                reveal_with_fuel(digits_value, 2);
                assert(digits@.drop_first() =~= Seq::<u32>::empty());
            }
        }
        BigNat { digits }
    }

    /// The digits of the number, base 2^32, least significant first, with no
    /// most significant zero digit (zero gives none).
    pub fn to_u32_digits(&self) -> (r: Vec<u32>)
        ensures
            digits_value(r@) == self@,
            canonical(r@),
            r@ == self.digit_seq(),
    {
        proof {
            use_type_invariant(self);
        }
        let r = self.digits.clone();
        assert(r@ =~= self.digits@);
        r
    }

    /// The sum of two numbers.
    pub fn add(&self, other: &BigNat) -> (r: BigNat)
        ensures
            r@ == self@ + other@,
    {
        let digits = biguint_add(&self.digits, &other.digits);
        BigNat { digits }
    }

    /// The product of two numbers.
    pub fn mul(&self, other: &BigNat) -> (r: BigNat)
        ensures
            r@ == self@ * other@,
    {
        let digits = biguint_mul(&self.digits, &other.digits);
        BigNat { digits }
    }
}

impl View for BigNat {
    type V = nat;

    open spec fn view(&self) -> nat {
        self.value()
    }
}

impl Clone for BigNat {
    fn clone(&self) -> (r: Self)
        ensures
            r@ == self@,
    {
        proof {
            use_type_invariant(self);
        }
        let digits = self.digits.clone();
        assert(digits@ =~= self.digits@);
        BigNat { digits }
    }
}

/// The numbers that a sequence of values denote.
pub open spec fn values(s: Seq<BigNat>) -> Seq<nat> {
    s.map_values(|x: BigNat| x@)
}

/// `values` keeps the length and takes each value to its number.
pub proof fn lemma_values_index(s: Seq<BigNat>)
    ensures
        values(s).len() == s.len(),
        forall|i: int| 0 <= i < s.len() ==> #[trigger] values(s)[i] == s[i]@,
{
}

/// No digits denote zero, and a single digit denotes itself.
pub proof fn lemma_digits_value_small(x: u32)
    ensures
        digits_value(Seq::<u32>::empty()) == 0,
        digits_value(seq![x]) == x,
{
    reveal_with_fuel(digits_value, 2);
    assert(seq![x].drop_first() =~= Seq::<u32>::empty());
}

/// A new most significant digit `x` adds `x` times the radix to the power of the
/// number of digits before it.
pub proof fn lemma_digits_value_push(d: Seq<u32>, x: u32)
    ensures
        digits_value(d.push(x)) == digits_value(d) + x * pow(radix() as int, d.len()),
    decreases d.len(),
{
    reveal(pow);
    if d.len() == 0 {
        lemma_digits_value_small(x);
        assert(d.push(x) =~= seq![x]);
    } else {
        let r = d.drop_first();
        lemma_digits_value_push(r, x);
        assert(d.push(x).drop_first() =~= r.push(x));
        assert(pow(radix() as int, d.len()) == radix() * pow(radix() as int, r.len()));
        let (p, q) = (pow(radix() as int, r.len()), digits_value(r));
        assert(radix() * (q + x * p) == radix() * q + x * (radix() * p)) by (nonlinear_arith);
    }
}

/// Two canonical digit sequences that denote the same number are the same sequence.
pub proof fn lemma_canonical_unique(a: Seq<u32>, b: Seq<u32>)
    requires
        canonical(a),
        canonical(b),
        digits_value(a) == digits_value(b),
    ensures
        a == b,
    decreases a.len() + b.len(),
{
    if a.len() == 0 && b.len() == 0 {
        assert(a =~= b);
    } else if a.len() == 0 || b.len() == 0 {
        // the nonempty one denotes a positive number
        let s = if a.len() == 0 { b } else { a };
        lemma_canonical_positive(s);
    } else {
        let (ra, rb) = (a.drop_first(), b.drop_first());
        assert(canonical(ra)) by {
            if ra.len() > 0 {
                assert(ra.last() == a.last());
            }
        }
        assert(canonical(rb)) by {
            if rb.len() > 0 {
                assert(rb.last() == b.last());
            }
        }
        // a[0] and b[0] are the values modulo the radix
        assert(a[0] == b[0] && digits_value(ra) == digits_value(rb)) by (nonlinear_arith)
            requires
                a[0] + radix() * digits_value(ra) == b[0] + radix() * digits_value(rb),
                0 <= a[0] < radix(),
                0 <= b[0] < radix(),
                radix() == 0x1_0000_0000,
        {
        }
        lemma_canonical_unique(ra, rb);
        assert(a =~= seq![a[0]] + ra);
        assert(b =~= seq![b[0]] + rb);
    }
}

/// A nonempty canonical digit sequence denotes a positive number.
pub proof fn lemma_canonical_positive(s: Seq<u32>)
    requires
        canonical(s),
        s.len() > 0,
    ensures
        digits_value(s) > 0,
    decreases s.len(),
{
    if s.len() > 1 {
        let r = s.drop_first();
        assert(r.last() == s.last());
        lemma_canonical_positive(r);
        assert(radix() * digits_value(r) > 0) by (nonlinear_arith)
            requires
                digits_value(r) > 0,
                radix() > 0,
        {
        }
    }
}

/// `num-bigint`'s `Add` for `BigUint`, on digit sequences: the digits are read
/// with `BigUint::from_slice` and the sum is given back by `to_u32_digits`.
/// Claimed: the result denotes the sum, and has no most significant zero digit
/// (`BigUint` keeps its digits normalized, and `to_u32_digits` drops a zero upper half).
#[verifier::external_body]
fn biguint_add(a: &Vec<u32>, b: &Vec<u32>) -> (r: Vec<u32>)
    ensures
        digits_value(r@) == digits_value(a@) + digits_value(b@),
        canonical(r@),
{
    (BigUint::from_slice(a) + BigUint::from_slice(b)).to_u32_digits()
}

/// `num-bigint`'s `Mul` for `BigUint`, on digit sequences, converted as in `biguint_add`.
/// Claimed: the result denotes the product, and has no most significant zero digit.
#[verifier::external_body]
fn biguint_mul(a: &Vec<u32>, b: &Vec<u32>) -> (r: Vec<u32>)
    ensures
        digits_value(r@) == digits_value(a@) * digits_value(b@),
        canonical(r@),
{
    (BigUint::from_slice(a) * BigUint::from_slice(b)).to_u32_digits()
}

} // verus!
