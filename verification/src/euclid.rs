//! The extended Euclidean algorithm on machine integers, with its proof.
use vstd::prelude::*;

verus! {

/// Greatest common divisor, by Euclid's recursion: gcd(a, 0) = a, gcd(a, b) = gcd(b, a mod b).
pub open spec fn spec_gcd(a: nat, b: nat) -> nat
    decreases b,
{
    if b == 0 {
        a
    } else {
        spec_gcd(b, a % b)
    }
}

pub open spec fn iabs(x: int) -> int {
    if x < 0 {
        -x
    } else {
        x
    }
}

/// The gcd of a positive number with anything is positive.
pub proof fn lemma_gcd_pos(a: nat, b: nat)
    requires
        a > 0 || b > 0,
    ensures
        spec_gcd(a, b) > 0,
    decreases b,
{
    if b > 0 {
        lemma_gcd_pos(b, a % b);
    }
}

/// Bezout coefficients (x, y) of Euclid's recursion: a * x + b * y = gcd(a, b).
pub open spec fn bezout(a: nat, b: nat) -> (int, int)
    decreases b,
{
    if b == 0 {
        (1, 0)
    } else {
        let (x, y) = bezout(b, a % b);
        (y, x - (a / b) as int * y)
    }
}

/// Bezout's identity for Euclid's gcd.
pub proof fn lemma_bezout(a: nat, b: nat)
    ensures
        a * bezout(a, b).0 + b * bezout(a, b).1 == spec_gcd(a, b),
    decreases b,
{
    if b > 0 {
        lemma_bezout(b, a % b);
        let (x, y) = bezout(b, a % b);
        let q = (a / b) as int;
        let r = (a % b) as int;
        vstd::arithmetic::div_mod::lemma_fundamental_div_mod(a as int, b as int);
        assert(a * y + b * (x - q * y) == b * x + r * y) by (nonlinear_arith)
            requires
                a == b * q + r,
        ;
        assert(bezout(a, b) == (y, x - q * y));
        assert(b * x + r * y == spec_gcd(a, b));
    } else {
        assert(a * 1 + b * 0 == a) by (nonlinear_arith);
    }
}

proof fn lemma_step_arith(
    old_r: int,
    r: int,
    old_s: int,
    s: int,
    q: int,
    m: int,
)
    requires
        r >= 1,
        old_r >= 1,
        q == old_r / r,
        iabs(s) * old_r + iabs(old_s) * r == m,
        old_s * s <= 0,
    ensures
        0 <= q <= old_r,
        q * r <= old_r,
        old_r - q * r == old_r % r,
        0 <= old_r - q * r < r,
        iabs(q * s) <= m,
        iabs(old_s - q * s) * r + iabs(s) * (old_r - q * r) == m,
        s * (old_s - q * s) <= 0,
        iabs(s) <= m,
        iabs(old_s - q * s) <= m,
{
    vstd::arithmetic::div_mod::lemma_fundamental_div_mod(old_r, r);
    vstd::arithmetic::div_mod::lemma_mod_bound(old_r, r);
    vstd::arithmetic::div_mod::lemma_div_pos_is_pos(old_r, r);
    assert(q <= old_r) by {
        vstd::arithmetic::div_mod::lemma_div_is_ordered_by_denominator(old_r, 1, r);
    }
    assert(q * r <= old_r) by (nonlinear_arith)
        requires
            old_r == r * q + old_r % r,
            old_r % r >= 0,
    ;
    assert(iabs(s) * old_r <= m) by (nonlinear_arith)
        requires
            iabs(s) * old_r + iabs(old_s) * r == m,
            iabs(old_s) >= 0,
            r >= 1,
    ;
    assert(iabs(q * s) <= iabs(s) * old_r) by (nonlinear_arith)
        requires
            0 <= q <= old_r,
    ;
    assert(iabs(s) <= m) by (nonlinear_arith)
        requires
            iabs(s) * old_r <= m,
            old_r >= 1,
            iabs(s) >= 0,
    ;
    let ns = old_s - q * s;
    assert(iabs(ns) == iabs(old_s) + q * iabs(s)) by (nonlinear_arith)
        requires
            old_s * s <= 0,
            q >= 0,
            ns == old_s - q * s,
    ;
    assert(iabs(ns) * r + iabs(s) * (old_r - q * r) == m) by (nonlinear_arith)
        requires
            iabs(ns) == iabs(old_s) + q * iabs(s),
            iabs(s) * old_r + iabs(old_s) * r == m,
    ;
    assert(s * ns <= 0) by (nonlinear_arith)
        requires
            old_s * s <= 0,
            q >= 0,
            ns == old_s - q * s,
    ;
    assert(iabs(ns) <= m) by (nonlinear_arith)
        requires
            iabs(ns) * r + iabs(s) * (old_r - q * r) == m,
            iabs(s) >= 0,
            old_r - q * r >= 0,
            r >= 1,
    ;
}

/// Runs the extended Euclidean algorithm on (m, a): returns g = gcd(m, a) and
/// a Bezout coefficient s of `a`, that is s * a = g modulo m, with |s| <= m.
pub fn extended_euclid(m: u64, a: u64) -> (res: (u64, i128))
    requires
        m > 0,
    ensures
        res.0 == spec_gcd(m as nat, a as nat),
        res.0 >= 1,
        iabs(res.1 as int) <= m,
        (res.1 * a - res.0) % (m as int) == 0,
{
    let (mut old_r, mut r) = (m as i128, a as i128);
    let (mut old_s, mut s) = (0i128, 1i128);
    let ghost mut old_k: int = 1;
    let ghost mut k: int = 0;
    let ghost g = spec_gcd(m as nat, a as nat);
    while r != 0
        invariant
            m > 0,
            0 <= r <= u64::MAX,
            1 <= old_r <= u64::MAX,
            spec_gcd(old_r as nat, r as nat) == g,
            g == spec_gcd(m as nat, a as nat),
            old_s * a + old_k * m == old_r,
            s * a + k * m == r,
            iabs(s as int) * old_r + iabs(old_s as int) * r == m,
            old_s * s <= 0,
            iabs(s as int) <= m,
            iabs(old_s as int) <= m,
        decreases r,
    {
        proof {
            lemma_step_arith(old_r as int, r as int, old_s as int, s as int, (old_r / r) as int, m as int);
        }
        let ghost (po_r, p_r, po_s, p_s, po_k, p_k) = (old_r as int, r as int, old_s as int, s as int, old_k, k);
        let quotient = old_r / r;
        let temp_r = r;
        r = old_r - quotient * r;
        old_r = temp_r;

        let temp_s = s;
        s = old_s - quotient * s;
        old_s = temp_s;

        proof {
            let q = quotient as int;
            let nk = po_k - q * p_k;
            assert((po_s - q * p_s) * a + nk * m == po_r - q * p_r) by (nonlinear_arith)
                requires
                    po_s * a + po_k * m == po_r,
                    p_s * a + p_k * m == p_r,
                    nk == po_k - q * p_k,
            ;
            assert(spec_gcd(po_r as nat, p_r as nat) == spec_gcd(p_r as nat, (po_r as nat) % (p_r as nat)));
            old_k = p_k;
            k = nk;
        }
    }
    proof {
        assert(spec_gcd(old_r as nat, 0) == old_r);
        let nk = -old_k;
        assert(old_s * a - old_r == nk * m) by (nonlinear_arith)
            requires
                old_s * a + old_k * m == old_r,
                nk == -old_k,
        ;
        vstd::arithmetic::div_mod::lemma_mod_multiples_basic(nk, m as int);
    }
    (old_r as u64, old_s)
}

} // verus!
