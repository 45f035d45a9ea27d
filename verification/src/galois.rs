//! Arithmetic in prime fields GF(p), with the Mersenne field GF(2^61 - 1) as
//! the primary field, and polynomial-style matrix multiplication over it.
use vstd::prelude::*;
use vstd::arithmetic::div_mod::*;
use vstd::arithmetic::mul::*;
use vstd::arithmetic::power::*;
use std::collections::HashMap;
use crate::euclid::{spec_gcd, extended_euclid};
use crate::text::{decimal, push_decimal};

verus! {

/// Mersenne prime 2^61 - 1 used as the primary Galois field modulus
pub const MERSENNE_61: u64 = 2305843009213693951u64;

/// Additional primes for CRT decomposition
pub const CRT_PRIMES: [u64; 8] = [
    2147483647u64,
    2147483629u64,
    2147483587u64,
    2147483579u64,
    2147483563u64,
    2147483549u64,
    2147483543u64,
    2147483497u64,
];

/// Errors that can occur in Galois field operations
#[derive(Debug)]
pub enum GaloisError {
    DivisionByZero,
    InvalidElement(String),
    CRTError(String),
    SIMDError(String),
    DimensionMismatch { expected: usize, actual: usize },
}

/// Result type of the Galois field operations
pub type GaloisResult<T> = Result<T, GaloisError>;

/// A Galois field element in GF(p)
#[derive(Debug, Clone, Copy, PartialEq, Eq, Hash, Structural)]
pub struct GaloisElement {
    /// The value of the element (0 <= value < modulus)
    pub value: u64,
    /// The field modulus (prime)
    pub modulus: u64,
}

/// The element `value mod modulus`, as a spec value.
pub open spec fn elem(value: int, modulus: u64) -> GaloisElement {
    GaloisElement { value: (value % (modulus as int)) as u64, modulus }
}

/// Value of a sum of two elements.
pub open spec fn add_value(a: GaloisElement, b: GaloisElement) -> int {
    a.value + b.value
}

/// Value of a difference of two elements.
pub open spec fn sub_value(a: GaloisElement, b: GaloisElement) -> int {
    if a.value >= b.value {
        a.value - b.value
    } else {
        a.modulus - (b.value - a.value)
    }
}

/// Value of a product of two elements.
pub open spec fn mul_value(a: GaloisElement, b: GaloisElement) -> int {
    a.value * b.value
}

/// Value of the additive inverse of an element.
pub open spec fn neg_value(a: GaloisElement) -> int {
    if a.value == 0 {
        0
    } else {
        a.modulus - a.value
    }
}

/// `inv` is the reduced multiplicative inverse of `a` in its field.
pub open spec fn is_inverse_of(inv: GaloisElement, a: GaloisElement) -> bool {
    &&& inv.modulus == a.modulus
    &&& inv.wf()
    &&& (a.value * inv.value) % (a.modulus as int) == 1int % (a.modulus as int)
}

/// Message carried by `GaloisError::InvalidElement` when an element has no inverse.
pub open spec fn not_invertible_text(value: u64, modulus: u64) -> Seq<char> {
    "Element "@ + decimal(value as nat) + " is not invertible in GF("@ + decimal(modulus as nat) + ")"@
}

/// The textual form `value(mod modulus)` of an element.
pub open spec fn element_text(value: u64, modulus: u64) -> Seq<char> {
    decimal(value as nat) + "(mod "@ + decimal(modulus as nat) + ")"@
}

fn not_invertible_message(value: u64, modulus: u64) -> (r: String)
    ensures
        r@ == not_invertible_text(value, modulus),
{
    let mut s = String::from_str("Element ");
    push_decimal(&mut s, value);
    s.append(" is not invertible in GF(");
    push_decimal(&mut s, modulus);
    s.append(")");
    s
}

proof fn lemma_mod_of_reduced(x: int, m: int)
    requires
        m > 0,
    ensures
        (x % m) % m == x % m,
        0 <= x % m < m,
{
    lemma_mod_twice(x, m);
    lemma_mod_bound(x, m);
}

impl GaloisElement {
    /// An element is well formed when its value is reduced modulo a positive modulus.
    pub open spec fn wf(self) -> bool {
        self.modulus > 0 && self.value < self.modulus
    }

    /// Create a new Galois field element
    pub fn new(value: u64, modulus: u64) -> (r: Self)
        requires
            modulus > 0,
        ensures
            r == elem(value as int, modulus),
            r.value == value % modulus,
            r.wf(),
    {
        Self { value: value % modulus, modulus }
    }

    /// Create an element in the primary Mersenne field GF(2^61-1)
    pub fn mersenne(value: u64) -> (r: Self)
        ensures
            r == elem(value as int, MERSENNE_61),
            r.wf(),
    {
        Self::new(value, MERSENNE_61)
    }

    /// The zero of GF(2^61-1)
    pub fn zero() -> (r: Self)
        ensures
            r == (GaloisElement { value: 0, modulus: MERSENNE_61 }),
    {
        Self::new(0, MERSENNE_61)
    }

    /// The one of GF(2^61-1)
    pub fn one() -> (r: Self)
        ensures
            r == (GaloisElement { value: 1, modulus: MERSENNE_61 }),
    {
        Self::new(1, MERSENNE_61)
    }

    /// Check if this element is zero
    pub fn is_zero(&self) -> (r: bool)
        ensures
            r == (self.value == 0),
    {
        self.value == 0
    }

    /// Check if this element is one
    pub fn is_one(&self) -> (r: bool)
        ensures
            r == (self.value == 1),
    {
        self.value == 1
    }

    /// Compute the multiplicative inverse using extended Euclidean algorithm
    pub fn inverse(&self) -> (r: GaloisResult<Self>)
        requires
            self.modulus > 0,
        ensures
            (r matches Err(GaloisError::DivisionByZero)) == (self.value == 0),
            (r matches Err(GaloisError::InvalidElement(_))) == (self.value != 0 && spec_gcd(
                self.modulus as nat,
                self.value as nat,
            ) != 1),
            r matches Err(GaloisError::InvalidElement(msg)) ==> msg@ == not_invertible_text(self.value, self.modulus),
            (r is Ok) == (self.value != 0 && spec_gcd(self.modulus as nat, self.value as nat) == 1),
            r matches Ok(inv) ==> is_inverse_of(inv, *self),
    {
        if self.is_zero() {
            return Err(GaloisError::DivisionByZero);
        }
        let (g, s) = extended_euclid(self.modulus, self.value);
        if g > 1 {
            return Err(GaloisError::InvalidElement(not_invertible_message(self.value, self.modulus)));
        }
        let m = self.modulus;
        let inverse: u64 = if s < 0 {
            (s + m as i128) as u64
        } else {
            s as u64
        };
        let r = Self::new(inverse, m);
        proof {
            let mi = m as int;
            // inverse = s (mod m), and s * value = 1 (mod m)
            assert((inverse as int) % mi == (s as int) % mi) by {
                if s < 0 {
                    lemma_mod_add_multiples_vanish(s as int, mi);
                }
            }
            assert((s * self.value) % mi == 1int % mi) by {
                lemma_fundamental_div_mod((s * self.value - 1) as int, mi);
                let k = (s * self.value - 1) / mi;
                assert(s * self.value == 1 + k * mi) by (nonlinear_arith)
                    requires
                        s * self.value - 1 == mi * k + (s * self.value - 1) % mi,
                        (s * self.value - 1) % mi == 0,
                ;
                lemma_mod_multiples_vanish(k, 1, mi);
            }
            lemma_mul_mod_noop_right(self.value as int, inverse as int, mi);
            lemma_mul_mod_noop_right(self.value as int, s as int, mi);
            lemma_mul_is_commutative(self.value as int, s as int);
        }
        Ok(r)
    }

    /// Fast exponentiation using binary method
    pub fn pow(&self, exponent: u64) -> (r: Self)
        requires
            self.modulus > 0,
        ensures
            r == elem(pow(self.value as int, exponent as nat), self.modulus),
    {
        let m = self.modulus;
        if exponent == 0 {
            proof {
                reveal(pow);
            }
            return Self::new(1, m);
        }
        let mut result = Self::new(1, m);
        let mut base = *self;
        let mut exp = exponent;
        proof {
            lemma_mul_mod_noop_left(1, pow(self.value as int, exp as nat), m as int);
            lemma_mul_basics(pow(self.value as int, exp as nat));
        }
        while exp > 0
            invariant
                m > 0,
                result.modulus == m,
                base.modulus == m,
                result.value < m,
                (result.value * pow(base.value as int, exp as nat)) % (m as int) == pow(
                    self.value as int,
                    exponent as nat,
                ) % (m as int),
            decreases exp,
        {
            let ghost (r0, b0, e0) = (result.value as int, base.value as int, exp as nat);
            proof {
                assert(exp & 1 == exp % 2 && exp >> 1 == exp / 2) by (bit_vector);
            }
            if exp & 1 == 1 {
                result = result * base;
            }
            base = base * base;
            exp >>= 1;
            proof {
                lemma_mod_bound(b0 * b0, m as int);
                lemma_mod_bound(r0 * b0, m as int);
                lemma_pow_step(r0, b0, e0, m as int, result.value as int, base.value as int, exp as nat);
            }
        }
        proof {
            reveal(pow);
            lemma_mul_basics(result.value as int);
            lemma_small_mod(result.value as nat, m as nat);
        }
        result
    }

    /// Convert to polynomial representation for matrix operations
    pub fn to_polynomial_coeffs(&self, degree: usize) -> (r: Vec<GaloisElement>)
        requires
            self.modulus > 0,
            degree < usize::MAX,
        ensures
            r.len() == degree + 1,
            r[0] == *self,
            forall|i: int| 1 <= i <= degree ==> r[i] == (GaloisElement { value: 0, modulus: self.modulus }),
    {
        let mut coeffs = vec![Self::new(0, self.modulus); degree + 1];
        coeffs.set(0, *self);
        coeffs
    }

    /// The textual form of this element: `value(mod modulus)`.
    pub fn to_string(&self) -> (r: String)
        ensures
            r@ == element_text(self.value, self.modulus),
    {
        let mut s = String::new();
        push_decimal(&mut s, self.value);
        s.append("(mod ");
        push_decimal(&mut s, self.modulus);
        s.append(")");
        s
    }
}

proof fn lemma_pow_step(r0: int, b0: int, e0: nat, m: int, r1: int, b1: int, e1: nat)
    requires
        m > 0,
        r0 >= 0,
        b0 >= 0,
        e0 > 0,
        e1 == e0 / 2,
        r1 == if e0 % 2 == 1 { (r0 * b0) % m } else { r0 },
        b1 == (b0 * b0) % m,
    ensures
        (r1 * pow(b1, e1)) % m == (r0 * pow(b0, e0)) % m,
{
    // pow(b0, e0) = pow(b0 * b0, e0 / 2) * pow(b0, e0 % 2)
    let h = e0 / 2;
    let t = e0 % 2;
    lemma_pow_multiplies(b0, 2, h);
    lemma_square_is_pow2(b0);
    lemma_pow_adds(b0, 2 * h, t);
    assert(e0 == 2 * h + t);
    assert(pow(b0, e0) == pow(b0 * b0, h) * pow(b0, t));
    // replace b0 * b0 by its residue
    lemma_pow_mod_noop(b0 * b0, h, m);
    assert(pow(b1, h) % m == pow(b0 * b0, h) % m);
    if t == 1 {
        lemma_pow1(b0);
        // (r0*b0 % m) * pow(b1,h) = r0 * b0 * pow(b0*b0, h)  (mod m)
        lemma_mul_mod_noop_left(r0 * b0, pow(b1, h), m);
        lemma_mul_mod_noop_right(r0 * b0, pow(b1, h), m);
        lemma_mul_mod_noop_right(r0 * b0, pow(b0 * b0, h), m);
        lemma_mul_is_associative(r0, b0, pow(b0 * b0, h));
        lemma_mul_is_commutative(b0, pow(b0 * b0, h));
        lemma_mul_is_associative(r0, pow(b0 * b0, h), b0);
    } else {
        lemma_pow0(b0);
        lemma_mul_mod_noop_right(r0, pow(b1, h), m);
        lemma_mul_mod_noop_right(r0, pow(b0 * b0, h), m);
    }
}

impl core::ops::Add for GaloisElement {
    type Output = Self;

    fn add(self, other: Self) -> (r: Self) {
        let sum = (self.value + other.value) % self.modulus;
        proof {
            lemma_mod_of_reduced((self.value + other.value) as int, self.modulus as int);
        }
        Self::new(sum, self.modulus)
    }
}

impl vstd::std_specs::ops::AddSpecImpl for GaloisElement {
    open spec fn obeys_add_spec() -> bool {
        true
    }

    open spec fn add_req(self, rhs: Self) -> bool {
        &&& self.modulus > 0
        &&& self.modulus == rhs.modulus
        &&& self.value + rhs.value <= u64::MAX
    }

    open spec fn add_spec(self, rhs: Self) -> Self {
        elem(add_value(self, rhs), self.modulus)
    }
}

impl core::ops::Sub for GaloisElement {
    type Output = Self;

    fn sub(self, other: Self) -> (r: Self) {
        let diff = if self.value >= other.value {
            self.value - other.value
        } else {
            self.modulus - (other.value - self.value)
        };
        Self::new(diff, self.modulus)
    }
}

impl vstd::std_specs::ops::SubSpecImpl for GaloisElement {
    open spec fn obeys_sub_spec() -> bool {
        true
    }

    open spec fn sub_req(self, rhs: Self) -> bool {
        &&& self.modulus > 0
        &&& self.modulus == rhs.modulus
        &&& (self.value >= rhs.value || rhs.value - self.value <= self.modulus)
    }

    open spec fn sub_spec(self, rhs: Self) -> Self {
        elem(sub_value(self, rhs), self.modulus)
    }
}

impl core::ops::Mul for GaloisElement {
    type Output = Self;

    fn mul(self, other: Self) -> (r: Self) {
        proof {
            lemma_mul_upper_bound(self.value as int, u64::MAX as int, other.value as int, u64::MAX as int);
        }
        let product = ((self.value as u128) * (other.value as u128)) % (self.modulus as u128);
        proof {
            lemma_mod_of_reduced((self.value * other.value) as int, self.modulus as int);
        }
        Self::new(product as u64, self.modulus)
    }
}

impl vstd::std_specs::ops::MulSpecImpl for GaloisElement {
    open spec fn obeys_mul_spec() -> bool {
        true
    }

    open spec fn mul_req(self, rhs: Self) -> bool {
        &&& self.modulus > 0
        &&& self.modulus == rhs.modulus
    }

    open spec fn mul_spec(self, rhs: Self) -> Self {
        elem(mul_value(self, rhs), self.modulus)
    }
}

impl core::ops::Neg for GaloisElement {
    type Output = Self;

    fn neg(self) -> (r: Self) {
        if self.is_zero() {
            self
        } else {
            Self::new(self.modulus - self.value, self.modulus)
        }
    }
}

impl vstd::std_specs::ops::NegSpecImpl for GaloisElement {
    open spec fn obeys_neg_spec() -> bool {
        true
    }

    open spec fn neg_req(self) -> bool {
        &&& self.modulus > 0
        &&& self.value <= self.modulus
    }

    open spec fn neg_spec(self) -> Self {
        if self.value == 0 {
            self
        } else {
            elem(neg_value(self), self.modulus)
        }
    }
}

impl core::ops::Div for GaloisElement {
    type Output = GaloisResult<Self>;

    fn div(self, other: Self) -> (r: GaloisResult<Self>)
        ensures
            (r matches Err(GaloisError::DivisionByZero)) == (other.value == 0),
            (r is Ok) == (other.value != 0 && spec_gcd(other.modulus as nat, other.value as nat) == 1),
            r matches Err(GaloisError::InvalidElement(msg)) ==> msg@ == not_invertible_text(other.value, other.modulus),
            r matches Ok(q) ==> (exists|inv: GaloisElement|
                is_inverse_of(inv, other) && q == elem(self.value * inv.value, self.modulus)),
    {
        let inverse = match other.inverse() {
            Ok(inv) => inv,
            Err(e) => {
                return Err(e);
            },
        };
        assert(is_inverse_of(inverse, other));
        Ok(self * inverse)
    }
}

impl vstd::std_specs::ops::DivSpecImpl for GaloisElement {
    open spec fn obeys_div_spec() -> bool {
        false
    }

    open spec fn div_req(self, rhs: Self) -> bool {
        &&& rhs.modulus > 0
        &&& self.modulus == rhs.modulus
    }

    open spec fn div_spec(self, rhs: Self) -> GaloisResult<Self> {
        Err(GaloisError::DivisionByZero)
    }
}

/// Sum over k < n of a[i][k] * b[k][j], accumulated in GF(2^61 - 1) from zero.
pub open spec fn dot_mod(a: Seq<Vec<GaloisElement>>, b: Seq<Vec<GaloisElement>>, i: int, j: int, n: nat) -> int
    decreases n,
{
    if n == 0 {
        0
    } else {
        (dot_mod(a, b, i, j, (n - 1) as nat) + (a[i][n - 1].value * b[n - 1][j].value) % (
        MERSENNE_61 as int)) % (MERSENNE_61 as int)
    }
}

/// Sum over k < n of a[i][k] * b[k][j], as integers.
pub open spec fn row_col_sum(a: Seq<Vec<GaloisElement>>, b: Seq<Vec<GaloisElement>>, i: int, j: int, n: nat) -> int
    decreases n,
{
    if n == 0 {
        0
    } else {
        row_col_sum(a, b, i, j, (n - 1) as nat) + a[i][n - 1].value * b[n - 1][j].value
    }
}

/// Accumulating the products in the field gives the integer sum reduced once.
proof fn lemma_dot_is_sum_mod(a: Seq<Vec<GaloisElement>>, b: Seq<Vec<GaloisElement>>, i: int, j: int, n: nat)
    ensures
        dot_mod(a, b, i, j, n) == row_col_sum(a, b, i, j, n) % (MERSENNE_61 as int),
    decreases n,
{
    if n > 0 {
        lemma_dot_is_sum_mod(a, b, i, j, (n - 1) as nat);
        lemma_add_mod_noop(
            row_col_sum(a, b, i, j, (n - 1) as nat),
            a[i][n - 1].value * b[n - 1][j].value,
            MERSENNE_61 as int,
        );
    }
}

/// Every element of every row lies in GF(2^61 - 1).
pub open spec fn all_mersenne(rows: Seq<Vec<GaloisElement>>) -> bool {
    forall|i: int, k: int|
        0 <= i < rows.len() && 0 <= k < rows[i].len() ==> #[trigger] rows[i][k].modulus == MERSENNE_61
}

/// Every row holds at least `n` entries.
pub open spec fn rows_at_least(rows: Seq<Vec<GaloisElement>>, n: int) -> bool {
    forall|i: int| 0 <= i < rows.len() ==> #[trigger] rows[i].len() >= n
}

/// The error returned for an inner dimension that does not match.
pub open spec fn dimension_error(expected: int, actual: int) -> GaloisError {
    GaloisError::DimensionMismatch { expected: expected as usize, actual: actual as usize }
}

/// Entry (i, j) of the product of `a` and `b` over GF(2^61 - 1).
pub open spec fn product_entry(a: Seq<Vec<GaloisElement>>, b: Seq<Vec<GaloisElement>>, i: int, j: int) -> GaloisElement {
    GaloisElement { value: dot_mod(a, b, i, j, b.len()) as u64, modulus: MERSENNE_61 }
}

/// `c` is the product of `a` (n x p) and `b` (p x m): n rows of m entries each.
pub open spec fn is_product(a: Seq<Vec<GaloisElement>>, b: Seq<Vec<GaloisElement>>, c: Seq<Vec<GaloisElement>>) -> bool {
    &&& c.len() == a.len()
    &&& forall|i: int|
        0 <= i < a.len() ==> {
            &&& (#[trigger] c[i]).len() == b[0].len()
            &&& forall|j: int| 0 <= j < b[0].len() ==> (#[trigger] c[i][j]) == product_entry(a, b, i, j)
        }
}

/// Element-wise addition of two vectors of field elements.
pub fn vector_add(a: &[GaloisElement], b: &[GaloisElement]) -> (r: GaloisResult<Vec<GaloisElement>>)
    requires
        a.len() == b.len() ==> forall|i: int|
            0 <= i < a.len() ==> (#[trigger] a[i]).modulus > 0 && a[i].modulus == b[i].modulus
                && a[i].value + b[i].value <= u64::MAX,
    ensures
        (r is Ok) == (a.len() == b.len()),
        r matches Err(e) ==> e == dimension_error(a.len() as int, b.len() as int),
        r matches Ok(v) ==> v.len() == a.len() && forall|i: int|
            0 <= i < v.len() ==> #[trigger] v[i] == elem(add_value(a[i], b[i]), a[i].modulus),
{
    if a.len() != b.len() {
        return Err(GaloisError::DimensionMismatch { expected: a.len(), actual: b.len() });
    }
    let mut result: Vec<GaloisElement> = Vec::new();
    let mut i: usize = 0;
    while i < a.len()
        invariant
            a.len() == b.len(),
            forall|j: int|
                0 <= j < a.len() ==> (#[trigger] a[j]).modulus > 0 && a[j].modulus == b[j].modulus
                    && a[j].value + b[j].value <= u64::MAX,
            0 <= i <= a.len(),
            result.len() == i,
            forall|k: int| 0 <= k < i ==> #[trigger] result[k] == elem(add_value(a[k], b[k]), a[k].modulus),
        decreases a.len() - i,
    {
        result.push(a[i] + b[i]);
        i += 1;
    }
    Ok(result)
}

/// Element-wise multiplication of two vectors of field elements.
pub fn vector_mul(a: &[GaloisElement], b: &[GaloisElement]) -> (r: GaloisResult<Vec<GaloisElement>>)
    requires
        a.len() == b.len() ==> forall|i: int|
            0 <= i < a.len() ==> (#[trigger] a[i]).modulus > 0 && a[i].modulus == b[i].modulus,
    ensures
        (r is Ok) == (a.len() == b.len()),
        r matches Err(e) ==> e == dimension_error(a.len() as int, b.len() as int),
        r matches Ok(v) ==> v.len() == a.len() && forall|i: int|
            0 <= i < v.len() ==> #[trigger] v[i] == elem(mul_value(a[i], b[i]), a[i].modulus),
{
    if a.len() != b.len() {
        return Err(GaloisError::DimensionMismatch { expected: a.len(), actual: b.len() });
    }
    let mut result: Vec<GaloisElement> = Vec::new();
    let mut i: usize = 0;
    while i < a.len()
        invariant
            a.len() == b.len(),
            forall|j: int|
                0 <= j < a.len() ==> (#[trigger] a[j]).modulus > 0 && a[j].modulus == b[j].modulus,
            0 <= i <= a.len(),
            result.len() == i,
            forall|k: int| 0 <= k < i ==> #[trigger] result[k] == elem(mul_value(a[k], b[k]), a[k].modulus),
        decreases a.len() - i,
    {
        result.push(a[i] * b[i]);
        i += 1;
    }
    Ok(result)
}

/// Initialize the Galois field engine
pub fn initialize_galois_engine(prime: u64) -> (r: Result<GaloisEngine, GaloisError>)
    ensures
        r matches Ok(e) && e.prime == prime && e.crt_primes@ == CRT_PRIMES@ && e.power_cache@.len() == 0,
{
    let engine = GaloisEngine::new(prime);
    Ok(engine)
}

/// Main Galois field computation engine
#[derive(Debug)]
pub struct GaloisEngine {
    /// Primary field modulus
    pub prime: u64,
    /// CRT primes for parallel computation
    pub crt_primes: Vec<u64>,
    /// Precomputed powers for fast exponentiation
    pub power_cache: HashMap<(u64, u64), GaloisElement>,
}

impl GaloisEngine {
    /// Create a new Galois field engine
    pub fn new(prime: u64) -> (r: Self)
        ensures
            r.prime == prime,
            r.crt_primes@ == CRT_PRIMES@,
            r.power_cache@.len() == 0,
    {
        Self {
            prime,
            crt_primes: vstd::slice::slice_to_vec(&CRT_PRIMES),
            power_cache: HashMap::new(),
        }
    }

    /// Create a field element
    pub fn element(&self, value: u64) -> (r: GaloisElement)
        requires
            self.prime > 0,
        ensures
            r == elem(value as int, self.prime),
    {
        GaloisElement::new(value, self.prime)
    }

    /// Perform matrix multiplication using polynomial representation
    pub fn matrix_multiply_polynomial(
        &self,
        a: &[Vec<GaloisElement>],
        b: &[Vec<GaloisElement>],
    ) -> (r: GaloisResult<Vec<Vec<GaloisElement>>>)
        requires
            a.len() > 0,
            b.len() > 0,
            a[0].len() == b.len() ==> all_mersenne(a@),
            a[0].len() == b.len() ==> all_mersenne(b@),
            a[0].len() == b.len() ==> rows_at_least(a@, b.len() as int),
            a[0].len() == b.len() ==> rows_at_least(b@, b[0].len() as int),
        ensures
            (r is Ok) == (a[0].len() == b.len()),
            r matches Err(e) ==> (e == dimension_error(b.len() as int, a[0].len() as int)),
            r matches Ok(c) ==> is_product(a@, b@, c@),
            r matches Ok(c) ==> forall|i: int, j: int|
                0 <= i < a.len() && 0 <= j < b[0].len() ==> (#[trigger] c@[i][j]).value == row_col_sum(
                    a@,
                    b@,
                    i,
                    j,
                    b.len() as nat,
                ) % (MERSENNE_61 as int),
    {
        let n = a.len();
        let m = b[0].len();
        let p = b.len();

        if a[0].len() != p {
            return Err(GaloisError::DimensionMismatch { expected: p, actual: a[0].len() });
        }
        let mut result: Vec<Vec<GaloisElement>> = Vec::new();
        let mut i: usize = 0;
        while i < n
            invariant
                n == a.len(),
                m == b[0].len(),
                p == b.len(),
                0 <= i <= n,
                result.len() == i,
                all_mersenne(a@),
                all_mersenne(b@),
                rows_at_least(a@, b.len() as int),
                rows_at_least(b@, b[0].len() as int),
                forall|ii: int|
                    0 <= ii < i ==> {
                        &&& (#[trigger] result[ii]).len() == m
                        &&& forall|j: int| 0 <= j < m ==> (#[trigger] result[ii][j]) == product_entry(a@, b@, ii, j)
                    },
            decreases n - i,
        {
            let mut row: Vec<GaloisElement> = Vec::new();
            let mut j: usize = 0;
            while j < m
                invariant
                    n == a.len(),
                    m == b[0].len(),
                    p == b.len(),
                    0 <= i < n,
                    0 <= j <= m,
                    row.len() == j,
                    all_mersenne(a@),
                    all_mersenne(b@),
                    rows_at_least(a@, b.len() as int),
                    rows_at_least(b@, b[0].len() as int),
                    forall|jj: int| 0 <= jj < j ==> (#[trigger] row[jj]) == product_entry(a@, b@, i as int, jj),
                decreases m - j,
            {
                let mut sum = GaloisElement::zero();
                let mut k: usize = 0;
                while k < p
                    invariant
                        n == a.len(),
                        m == b[0].len(),
                        p == b.len(),
                        0 <= i < n,
                        0 <= j < m,
                        0 <= k <= p,
                        all_mersenne(a@),
                        all_mersenne(b@),
                        rows_at_least(a@, b.len() as int),
                        rows_at_least(b@, b[0].len() as int),
                        sum.modulus == MERSENNE_61,
                        sum.value == dot_mod(a@, b@, i as int, j as int, k as nat),
                        0 <= dot_mod(a@, b@, i as int, j as int, k as nat) < MERSENNE_61,
                    decreases p - k,
                {
                    assert(a[i as int].len() >= b.len());
                    assert(b[k as int].len() >= b[0].len());
                    let prod = a[i][k] * b[k][j];
                    proof {
                        lemma_mod_bound(
                            (a@[i as int][k as int].value * b@[k as int][j as int].value) as int,
                            MERSENNE_61 as int,
                        );
                        let d = dot_mod(a@, b@, i as int, j as int, k as nat);
                        lemma_mod_bound(d + prod.value, MERSENNE_61 as int);
                    }
                    sum = sum + prod;
                    k += 1;
                }
                row.push(sum);
                j += 1;
            }
            result.push(row);
            i += 1;
        }
        proof {
            assert forall|i: int, j: int| 0 <= i < a.len() && 0 <= j < b[0].len() implies (
            #[trigger] result@[i][j]).value == row_col_sum(a@, b@, i, j, b.len() as nat) % (
            MERSENNE_61 as int) by {
                law_product_entries_are_full_sums(a@, b@, result@, i, j);
            }
        }
        Ok(result)
    }
}

/// Every entry of a matrix product is the full sum of the products along row i of
/// `a` and column j of `b`, over every k below the inner dimension, reduced modulo
/// 2^61 - 1.
pub proof fn law_product_entries_are_full_sums(
    a: Seq<Vec<GaloisElement>>,
    b: Seq<Vec<GaloisElement>>,
    c: Seq<Vec<GaloisElement>>,
    i: int,
    j: int,
)
    requires
        is_product(a, b, c),
        0 <= i < a.len(),
        0 <= j < b[0].len(),
    ensures
        c[i][j].value == row_col_sum(a, b, i, j, b.len()) % (MERSENNE_61 as int),
        c[i][j].modulus == MERSENNE_61,
{
    assert(c[i][j] == product_entry(a, b, i, j));
    lemma_dot_is_sum_mod(a, b, i, j, b.len());
    lemma_mod_bound(row_col_sum(a, b, i, j, b.len()), MERSENNE_61 as int);
}

/// Row i of the identity (1 at column i, 0 elsewhere) picks out row i of `b`: the sum
/// along it is entry (i, j) of `b`.
proof fn lemma_identity_row_sum(a: Seq<Vec<GaloisElement>>, b: Seq<Vec<GaloisElement>>, i: int, j: int, n: nat)
    requires
        0 <= i,
        forall|k: int| 0 <= k < n ==> #[trigger] a[i][k].value == (if k == i { 1int } else { 0int }),
    ensures
        row_col_sum(a, b, i, j, n) == (if i < n { b[i][j].value as int } else { 0int }),
    decreases n,
{
    if n > 0 {
        lemma_identity_row_sum(a, b, i, j, (n - 1) as nat);
        assert(a[i][n - 1].value == (if n - 1 == i { 1int } else { 0int }));
    }
}

/// Multiplying by the identity matrix on the left gives back the other matrix.
pub proof fn law_identity_product(a: Seq<Vec<GaloisElement>>, b: Seq<Vec<GaloisElement>>, c: Seq<Vec<GaloisElement>>)
    requires
        a.len() == b.len(),
        forall|i: int, k: int|
            0 <= i < a.len() && 0 <= k < b.len() ==> #[trigger] a[i][k].value == (if k == i { 1int } else { 0int }),
        all_mersenne(b),
        forall|i: int, j: int| 0 <= i < b.len() && 0 <= j < b[i].len() ==> (#[trigger] b[i][j]).wf(),
        rows_at_least(b, b[0].len() as int),
        is_product(a, b, c),
    ensures
        forall|i: int, j: int| 0 <= i < a.len() && 0 <= j < b[0].len() ==> #[trigger] c[i][j] == b[i][j],
{
    assert forall|i: int, j: int| 0 <= i < a.len() && 0 <= j < b[0].len() implies #[trigger] c[i][j] == b[i][j] by {
        law_product_entries_are_full_sums(a, b, c, i, j);
        assert forall|k: int| 0 <= k < b.len() implies #[trigger] a[i][k].value == (if k == i { 1int } else { 0int }) by {
            assert(a[i][k].value == (if k == i { 1int } else { 0int }));
        }
        lemma_identity_row_sum(a, b, i, j, b.len());
        assert(b[i].len() >= b[0].len());
        assert(b[i][j].wf());
        lemma_small_mod(b[i][j].value as nat, MERSENNE_61 as nat);
        assert(b[i][j].modulus == MERSENNE_61);
    }
}

/// Subtraction undoes addition: (a + b) - b == a, for elements of one field.
pub proof fn law_sub_undoes_add(a: GaloisElement, b: GaloisElement)
    requires
        a.wf(),
        b.wf(),
        a.modulus == b.modulus,
    ensures
        elem(sub_value(elem(add_value(a, b), a.modulus), b), a.modulus) == a,
{
    let m = a.modulus as int;
    let s = elem(add_value(a, b), a.modulus);
    lemma_fundamental_div_mod(a.value + b.value, m);
    lemma_mod_bound(a.value + b.value, m);
    let q = (a.value + b.value) / m;
    assert(q == 0 || q == 1) by (nonlinear_arith)
        requires
            a.value + b.value == m * q + (a.value + b.value) % m,
            0 <= (a.value + b.value) % m < m,
            0 <= a.value < m,
            0 <= b.value < m,
    ;
    lemma_small_mod(a.value as nat, m as nat);
    if s.value >= b.value {
        assert(s.value == a.value + b.value);
    } else {
        assert(s.value == a.value + b.value - m);
        lemma_small_mod(a.value as nat, m as nat);
    }
}

/// An element plus its negation is zero.
pub proof fn law_neg_is_additive_inverse(a: GaloisElement)
    requires
        a.wf(),
    ensures
        elem(add_value(a, elem(neg_value(a), a.modulus)), a.modulus).value == 0,
{
    let m = a.modulus as int;
    if a.value == 0 {
        lemma_small_mod(0, m as nat);
    } else {
        lemma_small_mod((m - a.value) as nat, m as nat);
        lemma_mod_self_0(m);
    }
}

/// Multiplication distributes over addition: a * (b + c) == a * b + a * c.
pub proof fn law_mul_distributes(a: GaloisElement, b: GaloisElement, c: GaloisElement)
    requires
        a.wf(),
        b.wf(),
        c.wf(),
        a.modulus == b.modulus,
        b.modulus == c.modulus,
    ensures
        elem(mul_value(a, elem(add_value(b, c), a.modulus)), a.modulus) == elem(
            add_value(elem(mul_value(a, b), a.modulus), elem(mul_value(a, c), a.modulus)),
            a.modulus,
        ),
{
    let m = a.modulus as int;
    let x = a.value as int;
    let y = b.value as int;
    let z = c.value as int;
    lemma_mul_mod_noop_right(x, y + z, m);
    lemma_mul_is_distributive_add(x, y, z);
    lemma_add_mod_noop(x * y, x * z, m);
    lemma_mul_nonnegative(x, y + z);
    lemma_mul_nonnegative(x, y);
    lemma_mul_nonnegative(x, z);
    lemma_mod_bound(x * y, m);
    lemma_mod_bound(x * z, m);
    lemma_mod_bound(y + z, m);
    lemma_mul_nonnegative(x, (y + z) % m);
}

/// Division undoes multiplication: (a * b) / b == a, where dividing by b multiplies
/// by an inverse of b.
pub proof fn law_div_undoes_mul(a: GaloisElement, b: GaloisElement, inv: GaloisElement)
    requires
        a.wf(),
        b.wf(),
        a.modulus == b.modulus,
        is_inverse_of(inv, b),
    ensures
        elem(mul_value(elem(mul_value(a, b), a.modulus), inv), a.modulus) == a,
{
    let m = a.modulus as int;
    let x = a.value as int;
    let y = b.value as int;
    let w = inv.value as int;
    lemma_mul_nonnegative(x, y);
    lemma_mod_bound(x * y, m);
    lemma_mul_mod_noop_left(x * y, w, m);
    lemma_mul_is_associative(x, y, w);
    lemma_mul_mod_noop_right(x, y * w, m);
    lemma_mul_basics(x);
    lemma_mul_mod_noop_right(x, 1, m);
    lemma_small_mod(x as nat, m as nat);
    lemma_mul_nonnegative((x * y) % m, w);
}

} // verus!
