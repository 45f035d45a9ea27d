//! Arbitrary-precision natural numbers as little-endian base-2^32 digit vectors.
//! The arithmetic itself is done by `num_bigint::BigUint`.
use vstd::prelude::*;
use num_bigint::BigUint;

verus! {

/// Value of a little-endian sequence of base-2^32 digits.
pub open spec fn digits_value(s: Seq<u32>) -> nat
    decreases s.len(),
{
    if s.len() == 0 {
        0
    } else {
        (s[0] as nat) + 0x1_0000_0000nat * digits_value(s.drop_first())
    }
}

/// An arbitrary-precision natural number, stored as little-endian base-2^32 digits.
#[derive(Debug)]
pub struct BigNat {
    pub digits: Vec<u32>,
}

impl View for BigNat {
    type V = nat;

    open spec fn view(&self) -> nat {
        digits_value(self.digits@)
    }
}

/// `num_bigint` product: the digits of the product of the two values.
#[verifier::external_body]
pub(crate) fn big_mul(a: &BigNat, b: &BigNat) -> (r: BigNat)
    ensures
        r@ == a@ * b@,
{
    BigNat { digits: (BigUint::from_slice(&a.digits) * BigUint::from_slice(&b.digits)).to_u32_digits() }
}

/// `num_bigint` sum: the digits of the sum of the two values.
#[verifier::external_body]
pub(crate) fn big_add(a: &BigNat, b: &BigNat) -> (r: BigNat)
    ensures
        r@ == a@ + b@,
{
    BigNat { digits: (BigUint::from_slice(&a.digits) + BigUint::from_slice(&b.digits)).to_u32_digits() }
}

/// `num_bigint` truncating division (it panics on a zero divisor).
#[verifier::external_body]
pub(crate) fn big_div(a: &BigNat, b: &BigNat) -> (r: BigNat)
    requires
        b@ > 0,
    ensures
        r@ == a@ / b@,
{
    BigNat { digits: (BigUint::from_slice(&a.digits) / BigUint::from_slice(&b.digits)).to_u32_digits() }
}

/// `num_bigint` remainder (it panics on a zero divisor).
#[verifier::external_body]
pub(crate) fn big_rem(a: &BigNat, b: &BigNat) -> (r: BigNat)
    requires
        b@ > 0,
    ensures
        r@ == a@ % b@,
{
    BigNat { digits: (BigUint::from_slice(&a.digits) % BigUint::from_slice(&b.digits)).to_u32_digits() }
}

proof fn lemma_two_digits(s: Seq<u32>)
    requires
        s.len() == 2,
    ensures
        digits_value(s) == s[0] + 0x1_0000_0000 * s[1],
{
    reveal_with_fuel(digits_value, 3);
    assert(s.drop_first().drop_first().len() == 0);
}

impl BigNat {
    /// The number `x`.
    pub fn from_u64(x: u64) -> (r: BigNat)
        ensures
            r@ == x,
    {
        proof {
            assert(x & 0xffff_ffff <= 0xffff_ffff && x >> 32 <= 0xffff_ffff && x == (x & 0xffff_ffff)
                + 0x1_0000_0000 * (x >> 32)) by (bit_vector);
        }
        let lo = (x & 0xffff_ffff) as u32;
        let hi = (x >> 32) as u32;
        let mut digits: Vec<u32> = Vec::new();
        digits.push(lo);
        digits.push(hi);
        proof {
            lemma_two_digits(digits@);
            assert(digits@[0] == x & 0xffff_ffff);
            assert(digits@[1] == x >> 32);
        }
        BigNat { digits }
    }

    /// The number as a `u64`, for a number that fits.
    pub fn to_u64(&self) -> (r: u64)
        requires
            self@ <= u64::MAX,
        ensures
            r == self@,
    {
        let len = self.digits.len();
        let lo: u64 = if len > 0 { self.digits[0] as u64 } else { 0 };
        let hi: u64 = if len > 1 { self.digits[1] as u64 } else { 0 };
        proof {
            let s = self.digits@;
            reveal_with_fuel(digits_value, 3);
            if len > 1 {
                let rest = digits_value(s.drop_first().drop_first());
                assert(digits_value(s) == lo + 0x1_0000_0000 * (hi + 0x1_0000_0000 * rest));
                assert(rest == 0) by (nonlinear_arith)
                    requires
                        lo + 0x1_0000_0000 * (hi + 0x1_0000_0000 * rest) <= 0xffff_ffff_ffff_ffff,
                        lo >= 0,
                        hi >= 0,
                        rest >= 0,
                ;
            }
            assert(hi <= 0xffff_ffff);
            assert(lo <= 0xffff_ffff);
        }
        lo + hi * 0x1_0000_0000
    }

    /// The same number, with its own copy of the digits.
    pub fn copy(&self) -> (r: BigNat)
        ensures
            r@ == self@,
            r.digits@ == self.digits@,
    {
        BigNat { digits: self.digits.clone() }
    }
}

} // verus!
