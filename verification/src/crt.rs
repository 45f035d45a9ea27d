//! Chinese Remainder Theorem decomposition of large integers into residues
//! modulo a list of primes, residue-wise arithmetic, and reconstruction.
use vstd::prelude::*;
use vstd::arithmetic::div_mod::*;
use vstd::arithmetic::mul::*;
use crate::bignat::{BigNat, big_add, big_div, big_mul, big_rem};
use crate::euclid::{bezout, extended_euclid, lemma_bezout, spec_gcd};
use crate::galois::{GaloisElement, GaloisError, GaloisResult, add_value, elem, mul_value};

verus! {

/// Product of a sequence of moduli.
pub open spec fn prod(s: Seq<u64>) -> nat
    decreases s.len(),
{
    if s.len() == 0 {
        1
    } else {
        prod(s.drop_last()) * (s.last() as nat)
    }
}

/// Every modulus is positive.
pub open spec fn all_positive(s: Seq<u64>) -> bool {
    forall|i: int| 0 <= i < s.len() ==> #[trigger] s[i] > 0
}

/// The cofactor of the k-th modulus in the product of all of them.
pub open spec fn cofactor(primes: Seq<u64>, k: int) -> nat {
    prod(primes) / (primes[k] as nat)
}

/// The k-th cofactor is invertible modulo the k-th modulus (as reconstruction needs).
pub open spec fn invertible_at(primes: Seq<u64>, k: int) -> bool {
    let c = cofactor(primes, k) % (primes[k] as nat);
    c != 0 && spec_gcd(primes[k] as nat, c) == 1
}

/// Every cofactor is invertible modulo its modulus.
pub open spec fn all_invertible(primes: Seq<u64>) -> bool {
    forall|k: int| 0 <= k < primes.len() ==> #[trigger] invertible_at(primes, k)
}

/// The reconstruction sum over the first n residues, with the given cofactor inverses.
pub open spec fn crt_sum(res: Seq<GaloisElement>, primes: Seq<u64>, invs: Seq<int>, n: nat) -> int
    decreases n,
{
    if n == 0 {
        0
    } else {
        crt_sum(res, primes, invs, (n - 1) as nat) + res[n - 1].value * cofactor(primes, n - 1)
            * invs[n - 1]
    }
}

/// Chinese Remainder Theorem decomposition for parallel computation
#[derive(Debug)]
pub struct CRTDecomposition {
    /// Residues modulo each prime
    pub residues: Vec<GaloisElement>,
    /// The primes used in the decomposition
    pub primes: Vec<u64>,
    /// Product of all primes
    pub modulus_product: BigNat,
}

impl CRTDecomposition {
    /// Residues reduced modulo their primes, and the product of the primes.
    pub open spec fn wf(&self) -> bool {
        &&& self.residues.len() == self.primes.len()
        &&& all_positive(self.primes@)
        &&& forall|i: int|
            0 <= i < self.residues.len() ==> (#[trigger] self.residues[i]).modulus == self.primes[i]
                && self.residues[i].value < self.primes[i]
        &&& self.modulus_product@ == prod(self.primes@)
    }

    /// Decompose a large integer using CRT
    pub fn decompose(value: &BigNat, primes: &[u64]) -> (r: Self)
        requires
            all_positive(primes@),
        ensures
            r.wf(),
            r.primes@ == primes@,
            forall|i: int|
                0 <= i < primes.len() ==> (#[trigger] r.residues[i]) == elem(
                    (value@ % (primes[i] as nat)) as int,
                    primes[i],
                ),
    {
        let mut residues: Vec<GaloisElement> = Vec::new();
        let mut modulus_product = BigNat::from_u64(1);
        let mut i: usize = 0;
        proof {
            reveal_with_fuel(prod, 1);
            assert(primes@.take(0).len() == 0);
        }
        while i < primes.len()
            invariant
                all_positive(primes@),
                0 <= i <= primes.len(),
                residues.len() == i,
                modulus_product@ == prod(primes@.take(i as int)),
                forall|k: int|
                    0 <= k < i ==> (#[trigger] residues[k]) == elem(
                        (value@ % (primes[k] as nat)) as int,
                        primes[k],
                    ),
            decreases primes.len() - i,
        {
            let prime = primes[i];
            let prime_big = BigNat::from_u64(prime);
            let residue = big_rem(value, &prime_big);
            proof {
                lemma_mod_bound(value@ as int, prime as int);
            }
            residues.push(GaloisElement::new(residue.to_u64(), prime));
            modulus_product = big_mul(&modulus_product, &prime_big);
            proof {
                assert(primes@.take(i + 1).drop_last() == primes@.take(i as int));
                lemma_small_mod((value@ % (prime as nat)) as nat, prime as nat);
            }
            i += 1;
        }
        proof {
            assert(primes@.take(primes.len() as int) == primes@);
        }
        let r = Self { residues, primes: vstd::slice::slice_to_vec(primes), modulus_product };
        assert forall|k: int| 0 <= k < r.residues.len() implies (#[trigger] r.residues[k]).modulus == r.primes[k]
            && r.residues[k].value < r.primes[k] by {
            lemma_mod_bound(value@ as int, primes[k] as int);
        }
        r
    }

    /// Reconstruct the decomposed value using CRT
    pub fn reconstruct(&self) -> (r: GaloisResult<BigNat>)
        requires
            self.wf(),
        ensures
            (r is Ok) == all_invertible(self.primes@),
            r matches Err(e) ==> exists|k: int|
                0 <= k < self.primes.len() && !invertible_at(self.primes@, k) && (forall|j: int|
                    0 <= j < k ==> #[trigger] invertible_at(self.primes@, j)) && inverse_error(
                    e,
                    cofactor(self.primes@, k) % (self.primes[k] as nat),
                ),
            r matches Ok(v) ==> (v@ < prod(self.primes@) && forall|i: int|
                0 <= i < self.primes.len() ==> v@ % (self.primes[i] as nat) == (
                #[trigger] self.residues[i]).value),
    {
        if self.residues.len() == 0 {
            let z = BigNat::from_u64(0);
            proof {
                assert(self.primes@.len() == 0);
                reveal_with_fuel(prod, 1);
            }
            return Ok(z);
        }
        let n = self.residues.len();
        let mut result = BigNat::from_u64(0);
        let ghost m = prod(self.primes@);
        let ghost mut invs: Seq<int> = Seq::empty();
        proof {
            lemma_prod_pos(self.primes@);
            lemma_small_mod(0, m);
        }
        let mut i: usize = 0;
        while i < n
            invariant
                self.wf(),
                n == self.residues.len(),
                m == prod(self.primes@),
                m > 0,
                0 <= i <= n,
                invs.len() == i,
                result@ == crt_sum(self.residues@, self.primes@, invs, i as nat) % (m as int),
                forall|k: int| 0 <= k < i ==> #[trigger] invertible_at(self.primes@, k),
                forall|k: int|
                    0 <= k < i ==> (cofactor(self.primes@, k) * #[trigger] invs[k]) % (
                    self.primes[k] as int) == 1int % (self.primes[k] as int),
            decreases n - i,
        {
            let residue = self.residues[i];
            let p = self.primes[i];
            let prime = BigNat::from_u64(p);
            let m_i = big_div(&self.modulus_product, &prime);
            let m_i_mod = big_rem(&m_i, &prime);
            proof {
                lemma_mod_bound(m_i@ as int, p as int);
            }
            let a = m_i_mod.to_u64();
            let inv = match Self::mod_inverse(a, p) {
                Ok(v) => v,
                Err(e) => {
                    proof {
                        assert(!invertible_at(self.primes@, i as int));
                        assert(cofactor(self.primes@, i as int) == m_i@);
                    }
                    return Err(e);
                },
            };
            let term = big_mul(&big_mul(&BigNat::from_u64(residue.value), &m_i), &BigNat::from_u64(inv));
            let sum = big_add(&result, &term);
            let ghost old_invs = invs;
            let ghost s0 = crt_sum(self.residues@, self.primes@, invs, i as nat);
            result = big_rem(&sum, &self.modulus_product);
            proof {
                invs = invs.push(inv as int);
                lemma_crt_sum_prefix(self.residues@, self.primes@, old_invs, invs, i as nat);
                lemma_add_mod_noop_right(term@ as int, s0, m as int);
                assert(cofactor(self.primes@, i as int) == m_i@);
                lemma_mul_mod_noop_left(m_i@ as int, inv as int, p as int);
            }
            i += 1;
        }
        proof {
            lemma_reconstruction_residues(self.residues@, self.primes@, invs, result@ as int);
            assert(forall|i: int| 0 <= i < self.primes.len() ==> #[trigger] invertible_at(self.primes@, i));
        }
        Ok(result)
    }

    /// Compute modular inverse using extended Euclidean algorithm
    fn mod_inverse(a: u64, m: u64) -> (r: GaloisResult<u64>)
        requires
            m > 0,
        ensures
            (r is Ok) == (a != 0 && spec_gcd(m as nat, a as nat) == 1),
            r matches Err(e) ==> inverse_error(e, a as nat),
            r matches Ok(inv) ==> (a * inv) % (m as int) == 1int % (m as int),
    {
        if a == 0 {
            return Err(GaloisError::CRTError(String::from_str("Cannot invert zero")));
        }
        let (g, s) = extended_euclid(m, a);
        if g > 1 {
            return Err(GaloisError::CRTError(String::from_str("Element not invertible")));
        }
        let result: u64 = if s < 0 {
            (s + m as i128) as u64
        } else {
            s as u64
        };
        proof {
            let mi = m as int;
            assert((result as int) % mi == (s as int) % mi) by {
                if s < 0 {
                    lemma_mod_add_multiples_vanish(s as int, mi);
                }
            }
            assert((s * a) % mi == 1int % mi) by {
                lemma_fundamental_div_mod((s * a - 1) as int, mi);
                let k = (s * a - 1) / mi;
                assert(s * a == 1 + k * mi) by (nonlinear_arith)
                    requires
                        s * a - 1 == mi * k + (s * a - 1) % mi,
                        (s * a - 1) % mi == 0,
                ;
                lemma_mod_multiples_vanish(k, 1, mi);
            }
            lemma_mul_mod_noop_right(a as int, result as int, mi);
            lemma_mul_mod_noop_right(a as int, s as int, mi);
            lemma_mul_is_commutative(a as int, s as int);
        }
        Ok(result)
    }

    /// Perform parallel addition using CRT residues
    pub fn add(&self, other: &Self) -> (r: GaloisResult<Self>)
        requires
            self.wf(),
            other.wf(),
            self.primes@ == other.primes@ ==> sums_fit(self.residues@, other.residues@),
        ensures
            (r is Ok) == (self.primes@ == other.primes@),
            r matches Err(e) ==> incompatible_error(e),
            r matches Ok(d) ==> {
                &&& d.wf()
                &&& d.primes@ == self.primes@
                &&& forall|i: int|
                    0 <= i < d.residues.len() ==> #[trigger] d.residues[i] == elem(
                        add_value(self.residues[i], other.residues[i]),
                        self.primes[i],
                    )
            },
    {
        if !(self.primes == other.primes) {
            return Err(GaloisError::CRTError(String::from_str("Incompatible CRT decompositions")));
        }
        let n = self.residues.len();
        let mut result_residues: Vec<GaloisElement> = Vec::new();
        let mut i: usize = 0;
        while i < n
            invariant
                self.wf(),
                other.wf(),
                self.primes@ == other.primes@,
                sums_fit(self.residues@, other.residues@),
                n == self.residues.len(),
                0 <= i <= n,
                result_residues.len() == i,
                forall|k: int|
                    0 <= k < i ==> #[trigger] result_residues[k] == elem(
                        add_value(self.residues[k], other.residues[k]),
                        self.primes[k],
                    ),
            decreases n - i,
        {
            assert(self.residues[i as int].modulus == other.residues[i as int].modulus);
            result_residues.push(self.residues[i] + other.residues[i]);
            i += 1;
        }
        let d = Self {
            residues: result_residues,
            primes: self.primes.clone(),
            modulus_product: self.modulus_product.copy(),
        };
        assert forall|k: int| 0 <= k < d.residues.len() implies (#[trigger] d.residues[k]).modulus
            == d.primes[k] && d.residues[k].value < d.primes[k] by {
            lemma_mod_bound(add_value(self.residues[k], other.residues[k]), self.primes[k] as int);
        }
        Ok(d)
    }

    /// Perform parallel multiplication using CRT residues
    pub fn mul(&self, other: &Self) -> (r: GaloisResult<Self>)
        requires
            self.wf(),
            other.wf(),
        ensures
            (r is Ok) == (self.primes@ == other.primes@),
            r matches Err(e) ==> incompatible_error(e),
            r matches Ok(d) ==> {
                &&& d.wf()
                &&& d.primes@ == self.primes@
                &&& forall|i: int|
                    0 <= i < d.residues.len() ==> #[trigger] d.residues[i] == elem(
                        mul_value(self.residues[i], other.residues[i]),
                        self.primes[i],
                    )
            },
    {
        if !(self.primes == other.primes) {
            return Err(GaloisError::CRTError(String::from_str("Incompatible CRT decompositions")));
        }
        let n = self.residues.len();
        let mut result_residues: Vec<GaloisElement> = Vec::new();
        let mut i: usize = 0;
        while i < n
            invariant
                self.wf(),
                other.wf(),
                self.primes@ == other.primes@,
                n == self.residues.len(),
                0 <= i <= n,
                result_residues.len() == i,
                forall|k: int|
                    0 <= k < i ==> #[trigger] result_residues[k] == elem(
                        mul_value(self.residues[k], other.residues[k]),
                        self.primes[k],
                    ),
            decreases n - i,
        {
            assert(self.residues[i as int].modulus == other.residues[i as int].modulus);
            result_residues.push(self.residues[i] * other.residues[i]);
            i += 1;
        }
        let d = Self {
            residues: result_residues,
            primes: self.primes.clone(),
            modulus_product: self.modulus_product.copy(),
        };
        assert forall|k: int| 0 <= k < d.residues.len() implies (#[trigger] d.residues[k]).modulus
            == d.primes[k] && d.residues[k].value < d.primes[k] by {
            lemma_mod_bound(mul_value(self.residues[k], other.residues[k]), self.primes[k] as int);
        }
        Ok(d)
    }
}

/// The error for a residue `a` without inverse: zero has none, and other residues
/// have none when they share a factor with their prime.
pub open spec fn inverse_error(e: GaloisError, a: nat) -> bool {
    e matches GaloisError::CRTError(m) && m@ == (if a == 0 {
        "Cannot invert zero"@
    } else {
        "Element not invertible"@
    })
}

/// Residue-wise sums stay within machine words.
pub open spec fn sums_fit(a: Seq<GaloisElement>, b: Seq<GaloisElement>) -> bool {
    forall|i: int| 0 <= i < a.len() && i < b.len() ==> #[trigger] a[i].value + #[trigger] b[i].value <= u64::MAX
}

/// The error for residue lists over different primes.
pub open spec fn incompatible_error(e: GaloisError) -> bool {
    e matches GaloisError::CRTError(m) && m@ == "Incompatible CRT decompositions"@
}

proof fn lemma_prod_pos(s: Seq<u64>)
    requires
        all_positive(s),
    ensures
        prod(s) > 0,
    decreases s.len(),
{
    if s.len() > 0 {
        lemma_prod_pos(s.drop_last());
        lemma_mul_strictly_positive(prod(s.drop_last()) as int, s.last() as int);
    }
}

proof fn lemma_crt_sum_prefix(res: Seq<GaloisElement>, primes: Seq<u64>, a: Seq<int>, b: Seq<int>, n: nat)
    requires
        a.len() >= n,
        b.len() >= n,
        forall|k: int| 0 <= k < n ==> a[k] == b[k],
    ensures
        crt_sum(res, primes, a, n) == crt_sum(res, primes, b, n),
    decreases n,
{
    if n > 0 {
        lemma_crt_sum_prefix(res, primes, a, b, (n - 1) as nat);
    }
}

/// Removing the k-th factor divides the product by it.
pub proof fn lemma_prod_remove(s: Seq<u64>, k: int)
    requires
        0 <= k < s.len(),
    ensures
        prod(s) == prod(s.remove(k)) * (s[k] as nat),
    decreases s.len(),
{
    let n = s.len() - 1;
    if k == n {
        assert(s.remove(k) == s.drop_last());
    } else {
        lemma_prod_remove(s.drop_last(), k);
        assert(s.remove(k).drop_last() == s.drop_last().remove(k));
        assert(s.remove(k).last() == s.last());
        let a = prod(s.drop_last().remove(k));
        assert(prod(s) == (a * (s[k] as nat)) * (s.last() as nat));
        assert(prod(s.remove(k)) == a * (s.last() as nat));
        lemma_mul_is_associative(a as int, s[k] as int, s.last() as int);
        lemma_mul_is_associative(a as int, s.last() as int, s[k] as int);
        lemma_mul_is_commutative(s[k] as int, s.last() as int);
    }
}

proof fn lemma_cofactor(s: Seq<u64>, k: int)
    requires
        all_positive(s),
        0 <= k < s.len(),
    ensures
        cofactor(s, k) == prod(s.remove(k)),
        cofactor(s, k) * (s[k] as nat) == prod(s),
        cofactor(s, k) > 0,
{
    lemma_prod_remove(s, k);
    assert(s[k] > 0);
    lemma_div_by_multiple(prod(s.remove(k)) as int, s[k] as int);
    assert(all_positive(s.remove(k))) by {
        assert forall|i: int| 0 <= i < s.remove(k).len() implies #[trigger] s.remove(k)[i] > 0 by {
            if i < k {
                assert(s.remove(k)[i] == s[i]);
            } else {
                assert(s.remove(k)[i] == s[i + 1]);
            }
        }
    }
    lemma_prod_pos(s.remove(k));
}

proof fn lemma_cofactor_divisible(s: Seq<u64>, j: int, k: int)
    requires
        all_positive(s),
        0 <= j < s.len(),
        0 <= k < s.len(),
        j != k,
    ensures
        cofactor(s, k) % (s[j] as nat) == 0,
{
    lemma_cofactor(s, k);
    let t = s.remove(k);
    let jj = if j < k { j } else { j - 1 };
    assert(t[jj] == s[j]);
    lemma_prod_remove(t, jj);
    lemma_mod_multiples_basic(prod(t.remove(jj)) as int, s[j] as int);
}

proof fn lemma_sum_mod(
    res: Seq<GaloisElement>,
    primes: Seq<u64>,
    invs: Seq<int>,
    n: nat,
    j: int,
)
    requires
        all_positive(primes),
        n <= primes.len(),
        invs.len() >= n,
        0 <= j < primes.len(),
        forall|k: int|
            0 <= k < n ==> (cofactor(primes, k) * #[trigger] invs[k]) % (primes[k] as int) == 1int
                % (primes[k] as int),
    ensures
        crt_sum(res, primes, invs, n) % (primes[j] as int) == (if j < n {
            res[j].value as int
        } else {
            0
        }) % (primes[j] as int),
    decreases n,
{
    let p = primes[j] as int;
    if n > 0 {
        let k = n - 1;
        lemma_sum_mod(res, primes, invs, (n - 1) as nat, j);
        let s0 = crt_sum(res, primes, invs, (n - 1) as nat);
        let r = res[k].value as int;
        let c = cofactor(primes, k) as int;
        let v = invs[k];
        let t = r * c * v;
        assert(crt_sum(res, primes, invs, n) == s0 + t);
        lemma_add_mod_noop(s0, t, p);
        if k != j {
            lemma_cofactor_divisible(primes, j, k);
            lemma_fundamental_div_mod(c, p);
            let q = c / p;
            assert(t == (q * r * v) * p) by (nonlinear_arith)
                requires
                    c == p * q + c % p,
                    c % p == 0,
                    t == r * c * v,
            ;
            lemma_mod_multiples_basic(q * r * v, p);
            lemma_small_mod(0, p as nat);
            lemma_mod_twice(s0, p);
        } else {
            assert(t == r * (c * v)) by (nonlinear_arith)
                requires
                    t == r * c * v,
            ;
            lemma_mul_mod_noop_right(r, c * v, p);
            lemma_mul_mod_noop_right(r, 1, p);
            lemma_mod_twice(r, p);
            lemma_small_mod(0, p as nat);
        }
    } else {
        lemma_small_mod(0, p as nat);
    }
}

proof fn lemma_reconstruction_residues(res: Seq<GaloisElement>, primes: Seq<u64>, invs: Seq<int>, v: int)
    requires
        all_positive(primes),
        res.len() == primes.len(),
        invs.len() == primes.len(),
        forall|i: int| 0 <= i < res.len() ==> (#[trigger] res[i]).value < primes[i],
        forall|k: int|
            0 <= k < primes.len() ==> (cofactor(primes, k) * #[trigger] invs[k]) % (primes[k] as int)
                == 1int % (primes[k] as int),
        v == crt_sum(res, primes, invs, primes.len()) % (prod(primes) as int),
    ensures
        0 <= v < prod(primes),
        forall|i: int| 0 <= i < primes.len() ==> v % (primes[i] as int) == (#[trigger] res[i]).value,
{
    lemma_prod_pos(primes);
    let total = crt_sum(res, primes, invs, primes.len());
    lemma_mod_bound(total, prod(primes) as int);
    assert forall|i: int| 0 <= i < primes.len() implies v % (primes[i] as int) == (
    #[trigger] res[i]).value by {
        let p = primes[i] as int;
        lemma_cofactor(primes, i);
        lemma_mul_is_commutative(cofactor(primes, i) as int, p);
        lemma_mod_mod(total, p, cofactor(primes, i) as int);
        lemma_sum_mod(res, primes, invs, primes.len(), i);
        lemma_small_mod(res[i].value as nat, p as nat);
    }
}

/// a and b are coprime, witnessed by integers x, y with a * x + b * y = 1.
pub open spec fn bezout_coprime(a: int, b: int) -> bool {
    exists|x: int, y: int| #[trigger] lin_comb(a, b, x, y) == 1
}

/// The integer combination a * x + b * y.
pub open spec fn lin_comb(a: int, b: int, x: int, y: int) -> int {
    a * x + b * y
}

proof fn lemma_invertible_coprime(primes: Seq<u64>, k: int)
    requires
        all_positive(primes),
        0 <= k < primes.len(),
        invertible_at(primes, k),
    ensures
        bezout_coprime(primes[k] as int, cofactor(primes, k) as int),
{
    let p = primes[k] as nat;
    let c = cofactor(primes, k);
    lemma_bezout(p, c % p);
    let (x, y) = bezout(p, c % p);
    lemma_fundamental_div_mod(c as int, p as int);
    let q = (c / p) as int;
    assert(p * (x - q * y) + c * y == 1) by (nonlinear_arith)
        requires
            p * x + (c % p) * y == 1,
            c == p * q + c % p,
    ;
    assert(lin_comb(primes[k] as int, cofactor(primes, k) as int, x - q * y, y) == 1);
}

proof fn lemma_coprime_product_divides(a: int, b: int, d: int)
    requires
        a > 0,
        b > 0,
        bezout_coprime(a, b),
        d % a == 0,
        d % b == 0,
    ensures
        d % (a * b) == 0,
{
    let (x, y) = choose|x: int, y: int| lin_comb(a, b, x, y) == 1;
    lemma_fundamental_div_mod(d, a);
    lemma_fundamental_div_mod(d, b);
    let e = d / a;
    let f = d / b;
    assert(d == (a * b) * (f * x + e * y)) by (nonlinear_arith)
        requires
            a * x + b * y == 1,
            d == a * e,
            d == b * f,
    ;
    lemma_mul_strictly_positive(a, b);
    lemma_mod_multiples_basic(f * x + e * y, a * b);
    lemma_mul_is_commutative(a * b, f * x + e * y);
}

proof fn lemma_common_multiple(primes: Seq<u64>, d: int)
    requires
        all_positive(primes),
        forall|k: int|
            0 <= k < primes.len() ==> #[trigger] bezout_coprime(
                primes[k] as int,
                cofactor(primes, k) as int,
            ),
        forall|k: int| 0 <= k < primes.len() ==> d % (#[trigger] primes[k] as int) == 0,
    ensures
        d % (prod(primes) as int) == 0,
    decreases primes.len(),
{
    if primes.len() == 0 {
        lemma_mod_multiples_basic(d, 1);
        reveal_with_fuel(prod, 1);
    } else {
        let s = primes.drop_last();
        let n = primes.len() - 1;
        let p = primes.last() as int;
        assert(all_positive(s));
        lemma_prod_pos(s);
        assert forall|k: int| 0 <= k < s.len() implies #[trigger] bezout_coprime(
            s[k] as int,
            cofactor(s, k) as int,
        ) by {
            assert(bezout_coprime(primes[k] as int, cofactor(primes, k) as int));
            let (x, y) = choose|x: int, y: int|
                lin_comb(primes[k] as int, cofactor(primes, k) as int, x, y) == 1;
            lemma_cofactor(primes, k);
            lemma_cofactor(s, k);
            assert(s[k] == primes[k]);
            let c = cofactor(s, k) as int;
            let pk = s[k] as int;
            assert(prod(primes) == prod(s) * (p as nat));
            assert(cofactor(primes, k) as int * pk == prod(s) * p);
            assert(c * pk == prod(s));
            assert(cofactor(primes, k) as int == c * p) by (nonlinear_arith)
                requires
                    cofactor(primes, k) as int * pk == prod(s) * p,
                    c * pk == prod(s),
                    pk > 0,
            ;
            assert(pk * x + c * (p * y) == 1) by (nonlinear_arith)
                requires
                    pk * x + (c * p) * y == 1,
            ;
            assert(lin_comb(pk, c, x, p * y) == 1);
        }
        lemma_common_multiple(s, d);
        lemma_cofactor(primes, n);
        assert(primes.remove(n) == s);
        assert(bezout_coprime(primes[n] as int, cofactor(primes, n) as int));
        assert(bezout_coprime(prod(s) as int, p)) by {
            let (x, y) = choose|x: int, y: int| lin_comb(p, cofactor(primes, n) as int, x, y) == 1;
            assert(lin_comb(prod(s) as int, p, y, x) == 1);
        }
        lemma_coprime_product_divides(prod(s) as int, p, d);
        lemma_mul_is_commutative(prod(s) as int, p);
    }
}

/// No two of the moduli share a factor: each pair has gcd 1.
pub open spec fn pairwise_coprime(primes: Seq<u64>) -> bool {
    forall|i: int, j: int|
        0 <= i < primes.len() && 0 <= j < primes.len() && i != j ==> #[trigger] spec_gcd(
            primes[i] as nat,
            primes[j] as nat,
        ) == 1
}

proof fn lemma_gcd_divides(a: nat, b: nat)
    requires
        a > 0 || b > 0,
    ensures
        spec_gcd(a, b) > 0,
        (a as int) % (spec_gcd(a, b) as int) == 0,
        (b as int) % (spec_gcd(a, b) as int) == 0,
    decreases b,
{
    crate::euclid::lemma_gcd_pos(a, b);
    let g = spec_gcd(a, b) as int;
    if b == 0 {
        lemma_mod_self_0(a as int);
        lemma_mod_multiples_basic(0, g);
    } else {
        lemma_gcd_divides(b, a % b);
        lemma_fundamental_div_mod(b as int, g);
        lemma_fundamental_div_mod((a % b) as int, g);
        lemma_fundamental_div_mod(a as int, b as int);
        let u = (b as int) / g;
        let v = ((a % b) as int) / g;
        let q = (a as int) / (b as int);
        assert(a as int == g * (u * q + v)) by (nonlinear_arith)
            requires
                b as int == g * u,
                (a % b) as int == g * v,
                a as int == (b as int) * q + (a % b) as int,
        ;
        lemma_mod_multiples_basic(u * q + v, g);
        lemma_mul_is_commutative(g, u * q + v);
    }
}

/// A combination a * x + b * y equal to 1 makes Euclid's gcd of a and b equal to 1.
proof fn lemma_combination_gcd(a: nat, b: nat, x: int, y: int)
    requires
        a * x + b * y == 1,
    ensures
        spec_gcd(a, b) == 1,
{
    if a == 0 && b == 0 {
        assert(a * x + b * y == 0) by (nonlinear_arith)
            requires
                a == 0,
                b == 0,
        ;
    }
    lemma_gcd_divides(a, b);
    let g = spec_gcd(a, b) as int;
    lemma_fundamental_div_mod(a as int, g);
    lemma_fundamental_div_mod(b as int, g);
    let u = (a as int) / g;
    let v = (b as int) / g;
    assert(g * (u * x + v * y) == 1) by (nonlinear_arith)
        requires
            a as int == g * u,
            b as int == g * v,
            a * x + b * y == 1,
    ;
    assert(g == 1) by (nonlinear_arith)
        requires
            g * (u * x + v * y) == 1,
            g > 0,
    ;
}

proof fn lemma_coprime_with_product(p: int, t: Seq<u64>)
    requires
        forall|j: int| 0 <= j < t.len() ==> #[trigger] spec_gcd(p as nat, t[j] as nat) == 1,
        p > 0,
    ensures
        bezout_coprime(p, prod(t) as int),
    decreases t.len(),
{
    if t.len() == 0 {
        assert(lin_comb(p, 1, 0, 1) == 1);
    } else {
        let s = t.drop_last();
        let q = t.last() as int;
        assert forall|j: int| 0 <= j < s.len() implies #[trigger] spec_gcd(p as nat, s[j] as nat) == 1 by {
            assert(s[j] == t[j]);
        }
        lemma_coprime_with_product(p, s);
        let a = prod(s) as int;
        let (x1, y1) = choose|x: int, y: int| #[trigger] lin_comb(p, a, x, y) == 1;
        assert(spec_gcd(p as nat, t[t.len() - 1] as nat) == 1);
        lemma_bezout(p as nat, q as nat);
        let (x2, y2) = bezout(p as nat, q as nat);
        let w = a * y1;
        assert(w * (p * x2 + q * y2) == w) by (nonlinear_arith)
            requires
                p * x2 + q * y2 == 1,
        ;
        assert(w * (p * x2 + q * y2) == w * (p * x2) + w * (q * y2)) by (nonlinear_arith);
        assert(w * (p * x2) == p * (w * x2)) by (nonlinear_arith);
        assert(w * (q * y2) == (a * q) * (y1 * y2)) by (nonlinear_arith)
            requires
                w == a * y1,
        ;
        assert(p * (x1 + w * x2) == p * x1 + p * (w * x2)) by (nonlinear_arith);
        assert(p * (x1 + w * x2) + (a * q) * (y1 * y2) == 1);
        assert(lin_comb(p, a * q, x1 + w * x2, y1 * y2) == 1);
        assert(prod(t) as int == a * q);
        assert(lin_comb(p, prod(t) as int, x1 + w * x2, y1 * y2) == 1);
    }
}

/// Pairwise coprime moduli make every cofactor invertible: for moduli of at least 2
/// that share no factor two by two, each cofactor is nonzero modulo its modulus and
/// coprime to it, which is what reconstruction needs.
pub proof fn law_coprime_moduli_invertible(primes: Seq<u64>)
    requires
        forall|i: int| 0 <= i < primes.len() ==> #[trigger] primes[i] >= 2,
        pairwise_coprime(primes),
    ensures
        all_invertible(primes),
{
    assert(all_positive(primes));
    assert forall|k: int| 0 <= k < primes.len() implies #[trigger] invertible_at(primes, k) by {
        let p = primes[k] as int;
        let t = primes.remove(k);
        assert forall|j: int| 0 <= j < t.len() implies #[trigger] spec_gcd(p as nat, t[j] as nat) == 1 by {
            let jj = if j < k { j } else { j + 1 };
            assert(t[j] == primes[jj]);
            assert(spec_gcd(primes[k] as nat, primes[jj] as nat) == 1);
        }
        lemma_coprime_with_product(p, t);
        lemma_cofactor(primes, k);
        let c = cofactor(primes, k) as int;
        let (x, y) = choose|x: int, y: int| #[trigger] lin_comb(p, c, x, y) == 1;
        lemma_fundamental_div_mod(c, p);
        let q = c / p;
        let r = c % p;
        assert(p * (x + q * y) + r * y == 1) by (nonlinear_arith)
            requires
                p * x + c * y == 1,
                c == p * q + r,
        ;
        if r == 0 {
            assert(p * (x + q * y) == 1);
            assert(false) by (nonlinear_arith)
                requires
                    p * (x + q * y) == 1,
                    p >= 2,
            ;
        }
        lemma_mod_pos_bound(c, p);
        lemma_combination_gcd(p as nat, r as nat, x + q * y, y);
    }
}

/// Reconstruction undoes decomposition: when every cofactor is invertible modulo
/// its prime, the value that `reconstruct` returns for the residues of `value`
/// (the only value below the product of the primes with those residues) is
/// `value` modulo that product.
pub proof fn law_reconstruct_decompose(value: nat, d: CRTDecomposition, v: nat)
    requires
        d.wf(),
        all_invertible(d.primes@),
        forall|i: int|
            0 <= i < d.primes.len() ==> (#[trigger] d.residues[i]) == elem(
                (value % (d.primes[i] as nat)) as int,
                d.primes[i],
            ),
        v < prod(d.primes@),
        forall|i: int|
            0 <= i < d.primes.len() ==> v % (d.primes[i] as nat) == (#[trigger] d.residues[i]).value,
    ensures
        v == value % prod(d.primes@),
{
    let primes = d.primes@;
    let m = prod(primes) as int;
    lemma_prod_pos(primes);
    let x = (value % (m as nat)) as int;
    lemma_mod_bound(value as int, m);
    let diff = v - x;
    assert forall|k: int| 0 <= k < primes.len() implies #[trigger] bezout_coprime(
        primes[k] as int,
        cofactor(primes, k) as int,
    ) by {
        assert(invertible_at(primes, k));
        lemma_invertible_coprime(primes, k);
    }
    assert forall|k: int| 0 <= k < primes.len() implies diff % (#[trigger] primes[k] as int) == 0 by {
        let p = primes[k] as int;
        lemma_cofactor(primes, k);
        lemma_mul_is_commutative(cofactor(primes, k) as int, p);
        lemma_mod_mod(value as int, p, cofactor(primes, k) as int);
        lemma_mod_bound(value as int, p);
        lemma_small_mod((value % (p as nat)) as nat, p as nat);
        assert(d.residues[k] == elem((value % (p as nat)) as int, d.primes[k]));
        assert((v as int) % p == d.residues[k].value);
        assert(p * (cofactor(primes, k) as int) == m);
        assert(x % p == (value as int) % p);
        assert((v as int) % p == x % p);
        lemma_sub_mod_noop(v as int, x, p);
        lemma_small_mod(0, p as nat);
    }
    lemma_common_multiple(primes, diff);
    lemma_fundamental_div_mod(diff, m);
    let q = diff / m;
    assert(diff == m * q);
    assert(q == 0) by (nonlinear_arith)
        requires
            diff == m * q,
            -m < diff < m,
            m > 0,
    ;
}


/// `d` holds the residues of `value` modulo each of its primes.
pub open spec fn decomposes(d: CRTDecomposition, value: nat) -> bool {
    forall|i: int|
        0 <= i < d.primes.len() ==> (#[trigger] d.residues[i]) == elem((value % (d.primes[i] as nat)) as int, d.primes[i])
}

/// `v` is what `reconstruct` returns for `d`: the value below the product of the
/// primes with the residues of `d`.
pub open spec fn reconstructs(d: CRTDecomposition, v: nat) -> bool {
    &&& v < prod(d.primes@)
    &&& forall|i: int| 0 <= i < d.primes.len() ==> v % (d.primes[i] as nat) == (#[trigger] d.residues[i]).value
}

/// Residue-wise addition is addition of the decomposed values: adding the
/// decompositions of `a` and `b` over the same primes gives the decomposition of
/// `a + b`, which reconstructs (when every cofactor is invertible) to `a + b`
/// modulo the product of the primes.
pub proof fn law_crt_add(a: nat, b: nat, d1: CRTDecomposition, d2: CRTDecomposition, d3: CRTDecomposition, v: nat)
    requires
        d1.wf(),
        d2.wf(),
        d3.wf(),
        d1.primes@ == d2.primes@,
        d3.primes@ == d1.primes@,
        decomposes(d1, a),
        decomposes(d2, b),
        forall|i: int|
            0 <= i < d3.residues.len() ==> #[trigger] d3.residues[i] == elem(
                add_value(d1.residues[i], d2.residues[i]),
                d1.primes[i],
            ),
    ensures
        decomposes(d3, a + b),
        all_invertible(d3.primes@) && reconstructs(d3, v) ==> v == (a + b) % prod(d3.primes@),
{
    assert forall|i: int| 0 <= i < d3.primes.len() implies (#[trigger] d3.residues[i]) == elem(
        ((a + b) % (d3.primes[i] as nat)) as int,
        d3.primes[i],
    ) by {
        let p = d3.primes[i] as int;
        assert(d1.residues[i] == elem((a % (d1.primes[i] as nat)) as int, d1.primes[i]));
        assert(d2.residues[i] == elem((b % (d2.primes[i] as nat)) as int, d2.primes[i]));
        lemma_mod_bound(a as int, p);
        lemma_mod_bound(b as int, p);
        lemma_small_mod(a % (p as nat), p as nat);
        lemma_small_mod(b % (p as nat), p as nat);
        lemma_add_mod_noop(a as int, b as int, p);
        lemma_mod_bound((a + b) as int, p);
        lemma_small_mod((a + b) % (p as nat), p as nat);
    }
    if all_invertible(d3.primes@) && reconstructs(d3, v) {
        law_reconstruct_decompose(a + b, d3, v);
    }
}

/// Residue-wise multiplication is multiplication of the decomposed values:
/// multiplying the decompositions of `a` and `b` over the same primes gives the
/// decomposition of `a * b`, which reconstructs (when every cofactor is invertible)
/// to `a * b` modulo the product of the primes.
pub proof fn law_crt_mul(a: nat, b: nat, d1: CRTDecomposition, d2: CRTDecomposition, d3: CRTDecomposition, v: nat)
    requires
        d1.wf(),
        d2.wf(),
        d3.wf(),
        d1.primes@ == d2.primes@,
        d3.primes@ == d1.primes@,
        decomposes(d1, a),
        decomposes(d2, b),
        forall|i: int|
            0 <= i < d3.residues.len() ==> #[trigger] d3.residues[i] == elem(
                mul_value(d1.residues[i], d2.residues[i]),
                d1.primes[i],
            ),
    ensures
        decomposes(d3, a * b),
        all_invertible(d3.primes@) && reconstructs(d3, v) ==> v == (a * b) % prod(d3.primes@),
{
    assert forall|i: int| 0 <= i < d3.primes.len() implies (#[trigger] d3.residues[i]) == elem(
        ((a * b) % (d3.primes[i] as nat)) as int,
        d3.primes[i],
    ) by {
        let p = d3.primes[i] as int;
        assert(d1.residues[i] == elem((a % (d1.primes[i] as nat)) as int, d1.primes[i]));
        assert(d2.residues[i] == elem((b % (d2.primes[i] as nat)) as int, d2.primes[i]));
        lemma_mod_bound(a as int, p);
        lemma_mod_bound(b as int, p);
        lemma_small_mod(a % (p as nat), p as nat);
        lemma_small_mod(b % (p as nat), p as nat);
        lemma_mul_mod_noop(a as int, b as int, p);
        lemma_mul_nonnegative(a as int, b as int);
        lemma_mod_bound((a * b) as int, p);
        lemma_small_mod((a * b) % (p as nat), p as nat);
    }
    if all_invertible(d3.primes@) && reconstructs(d3, v) {
        law_reconstruct_decompose(a * b, d3, v);
    }
}

} // verus!
