//! Binary-field arithmetic on 32-bit words (carry-less multiplication followed
//! by polynomial reduction) and the homomorphic packet-feature cipher built on it.
use vstd::prelude::*;

verus! {

/// Irreducible polynomial of the word field, x^32 + x^7 + x^3 + x^2 + 1, with its
/// x^32 term.
pub const IRREDUCIBLE: u64 = 0x1_0000_008D;

/// Carry-less product of `a` with the low `n` bits of `b`.
pub open spec fn clmul(a: u64, b: u64, n: nat) -> u64
    decreases n,
{
    if n == 0 {
        0
    } else {
        let k = (n - 1) as u64;
        clmul(a, b, (n - 1) as nat) ^ (if (b >> k) & 1 == 1 {
            a << k
        } else {
            0
        })
    }
}

/// One reduction step at bit position p: if bit p is set, add the irreducible
/// polynomial shifted so that its x^32 term sits at position p, which clears bit p.
pub open spec fn reduce_step(v: u64, p: u64) -> u64 {
    if v & (1u64 << p) != 0 {
        v ^ (IRREDUCIBLE << ((p - 32) as u64))
    } else {
        v
    }
}

/// Reduction steps at the bit positions hi - 1 down to 32, highest first.
pub open spec fn reduce_from(v: u64, hi: nat) -> u64
    decreases hi,
{
    if hi <= 32 {
        v
    } else {
        reduce_from(reduce_step(v, (hi - 1) as u64), (hi - 1) as nat)
    }
}

/// Product of two words: carry-less multiplication, then reduction of bits 63..32,
/// then the low 32 bits.
pub open spec fn gf_mul(a: u32, b: u32) -> u32 {
    reduce_from(clmul(a as u64, b as u64, 32), 64) as u32
}

/// Square-and-multiply exponentiation as `GF32::pow` performs it, from an
/// accumulator `acc` and a base.
pub open spec fn gf_pow_from(acc: u32, base: u32, exp: u32) -> u32
    decreases exp,
{
    if exp == 0 {
        acc
    } else {
        gf_pow_from(
            if exp % 2 == 1 {
                gf_mul(acc, base)
            } else {
                acc
            },
            gf_mul(base, base),
            exp / 2,
        )
    }
}

/// `base` raised to `exp` by square-and-multiply.
pub open spec fn gf_pow(base: u32, exp: u32) -> u32 {
    gf_pow_from(1, base, exp)
}

/// The multiplicative inverse candidate: a^(2^32 - 2), and 0 for 0.
pub open spec fn gf_inv(a: u32) -> u32 {
    if a == 0 {
        0
    } else {
        gf_pow(a, 0xFFFF_FFFE)
    }
}

/// Galois Field GF(2^32) element
#[derive(Debug, Clone, Copy, PartialEq, Eq, Structural)]
pub struct GF32(pub u32);

proof fn lemma_shift_steps(a: u64, b: u64, i: u64)
    requires
        i < 64,
    ensures
        (a << i) << 1u64 == a << ((i + 1) as u64),
        i < 63 ==> (b >> i) >> 1u64 == b >> ((i + 1) as u64),
        (b >> i) & 1 == ((b >> i) & 1),
{
    assert((a << i) << 1u64 == a << ((i + 1) as u64)) by (bit_vector)
        requires
            i < 64,
    ;
    assert(i < 63 ==> (b >> i) >> 1u64 == b >> ((i + 1) as u64)) by (bit_vector)
        requires
            i < 64,
    ;
}

impl GF32 {
    /// Create new GF(2^32) element
    pub fn new(value: u32) -> (r: Self)
        ensures
            r.0 == value,
    {
        Self(value)
    }

    /// Addition in GF(2^32) (XOR)
    pub fn add(self, other: Self) -> (r: Self)
        ensures
            r.0 == self.0 ^ other.0,
    {
        Self(self.0 ^ other.0)
    }

    /// Multiplication in GF(2^32)
    pub fn mul(self, other: Self) -> (r: Self)
        ensures
            r.0 == gf_mul(self.0, other.0),
    {
        let mut result = 0u64;
        let mut a = self.0 as u64;
        let mut b = other.0 as u64;
        let ghost a0 = self.0 as u64;
        let ghost b0 = other.0 as u64;
        let mut i: u64 = 0;
        proof {
            assert(a0 << 0u64 == a0 && b0 >> 0u64 == b0) by (bit_vector);
        }
        while i < 32
            invariant
                i <= 32,
                a == a0 << i,
                b == b0 >> i,
                result == clmul(a0, b0, i as nat),
            decreases 32 - i,
        {
            proof {
                lemma_shift_steps(a0, b0, i);
                assert(b & 1 == (b0 >> i) & 1);
                assert((b0 >> i) & 1 <= 1) by (bit_vector);
            }
            let ghost r0 = result;
            if b & 1 != 0 {
                result ^= a;
            } else {
                proof {
                    assert(r0 ^ 0u64 == r0) by (bit_vector);
                }
            }
            proof {
                assert(clmul(a0, b0, (i + 1) as nat) == r0 ^ (if (b0 >> i) & 1 == 1 {
                    a0 << i
                } else {
                    0
                }));
            }
            b >>= 1;
            a <<= 1;
            i += 1;
        }
        Self(Self::reduce(result))
    }

    /// Reduce 64-bit value modulo irreducible polynomial
    fn reduce(value: u64) -> (r: u32)
        ensures
            r == reduce_from(value, 64) as u32,
    {
        let mut value = value;
        let ghost v0 = value;
        let mut i: u64 = 64;
        while i > 32
            invariant
                32 <= i <= 64,
                reduce_from(value, i as nat) == reduce_from(v0, 64),
            decreases i,
        {
            i -= 1;
            if value & (1u64 << i) != 0 {
                value ^= IRREDUCIBLE << (i - 32);
            }
        }
        value as u32
    }

    /// Multiplicative inverse in GF(2^32)
    pub fn inv(self) -> (r: Self)
        ensures
            r.0 == gf_inv(self.0),
    {
        if self.0 == 0 {
            return Self(0);
        }
        self.pow(0xFFFFFFFE)
    }

    /// Exponentiation in GF(2^32)
    pub fn pow(self, exp: u32) -> (r: Self)
        ensures
            r.0 == gf_pow(self.0, exp),
    {
        let ghost e0 = exp;
        let mut exp = exp;
        let mut result = Self(1);
        let mut base = self;
        while exp > 0
            invariant
                gf_pow_from(result.0, base.0, exp) == gf_pow(self.0, e0),
            decreases exp,
        {
            proof {
                assert(exp & 1 == exp % 2 && exp >> 1 == exp / 2) by (bit_vector);
            }
            if exp & 1 != 0 {
                result = result.mul(base);
            }
            base = base.mul(base);
            exp >>= 1;
        }
        result
    }
}

/// Galois Field Homomorphic Encryption Engine
pub struct GaloisFieldEngine {
    /// Encryption key (GF(2^32) element)
    key: GF32,
    /// Compression key
    compression_key: GF32,
}

/// Word i of the compression of `e`: the sum of words 2i and 2i+1 (0 past the end),
/// multiplied by the compression key.
pub open spec fn compressed_word(e: Seq<u32>, i: int, ck: u32) -> u32 {
    let b = if 2 * i + 1 < e.len() {
        e[2 * i + 1]
    } else {
        0u32
    };
    gf_mul(e[2 * i] ^ b, ck)
}

impl GaloisFieldEngine {
    /// The encryption key.
    pub closed spec fn key_word(&self) -> u32 {
        self.key.0
    }

    /// The compression key.
    pub closed spec fn compression_word(&self) -> u32 {
        self.compression_key.0
    }

    /// Create new Galois Field engine with its fixed default keys
    pub fn new() -> (r: Self)
        ensures
            r.key_word() == 0x12345678,
            r.compression_word() == 0x87654321,
    {
        let key = GF32::new(0x12345678);
        let compression_key = GF32::new(0x87654321);
        Self { key, compression_key }
    }

    /// Create engine with specific key; the compression key is the key rotated left by 16 bits.
    pub fn with_key(key: u32) -> (r: Self)
        ensures
            r.key_word() == key,
            r.compression_word() == (key << 16u32) | (key >> 16u32),
    {
        Self { key: GF32::new(key), compression_key: GF32::new((key << 16u32) | (key >> 16u32)) }
    }

    /// Encrypt packet features, given as the bit patterns of their values, by multiplying
    /// each word by the key.
    pub fn encrypt(&self, feature_bits: &[u32]) -> (r: Vec<u32>)
        ensures
            r.len() == feature_bits.len(),
            forall|i: int| 0 <= i < r.len() ==> #[trigger] r[i] == gf_mul(feature_bits[i], self.key_word()),
    {
        let mut encrypted: Vec<u32> = Vec::new();
        let mut i: usize = 0;
        while i < feature_bits.len()
            invariant
                0 <= i <= feature_bits.len(),
                encrypted.len() == i,
                forall|k: int| 0 <= k < i ==> #[trigger] encrypted[k] == gf_mul(feature_bits[k], self.key_word()),
            decreases feature_bits.len() - i,
        {
            let gf_value = GF32::new(feature_bits[i]);
            let e = gf_value.mul(self.key);
            encrypted.push(e.0);
            i += 1;
        }
        encrypted
    }

    /// Decrypt packet features: multiply each word by the inverse candidate of the key;
    /// the results are the bit patterns of the decrypted values.
    pub fn decrypt(&self, encrypted: &[u32]) -> (r: Vec<u32>)
        ensures
            r.len() == encrypted.len(),
            forall|i: int| 0 <= i < r.len() ==> #[trigger] r[i] == gf_mul(encrypted[i], gf_inv(self.key_word())),
    {
        let key_inv = self.key.inv();
        let mut decrypted: Vec<u32> = Vec::new();
        let mut i: usize = 0;
        while i < encrypted.len()
            invariant
                0 <= i <= encrypted.len(),
                key_inv.0 == gf_inv(self.key_word()),
                decrypted.len() == i,
                forall|k: int| 0 <= k < i ==> #[trigger] decrypted[k] == gf_mul(encrypted[k], gf_inv(self.key_word())),
            decreases encrypted.len() - i,
        {
            let gf_value = GF32::new(encrypted[i]);
            let d = gf_value.mul(key_inv);
            decrypted.push(d.0);
            i += 1;
        }
        decrypted
    }

    /// Compress encrypted data (homomorphic operation): each pair of words is added
    /// and multiplied by the compression key; a last unpaired word is paired with 0.
    pub fn compress_encrypted(&self, encrypted: &[u32]) -> (r: Vec<u32>)
        ensures
            r.len() == (encrypted.len() + 1) / 2,
            forall|i: int| 0 <= i < r.len() ==> #[trigger] r[i] == compressed_word(encrypted@, i, self.compression_word()),
    {
        let mut compressed: Vec<u32> = Vec::new();
        let n = encrypted.len();
        let mut j: usize = 0;
        while j < n
            invariant
                n == encrypted.len(),
                j <= n,
                j % 2 == 0 || j == n,
                compressed.len() == (j + 1) / 2,
                forall|i: int| 0 <= i < compressed.len() ==> #[trigger] compressed[i] == compressed_word(encrypted@, i, self.compression_word()),
            decreases n - j,
        {
            let rest = n - j;
            let a = GF32::new(encrypted[j]);
            let b = if rest > 1 {
                GF32::new(encrypted[j + 1])
            } else {
                GF32::new(0)
            };
            let sum = a.add(b);
            let compressed_value = sum.mul(self.compression_key);
            compressed.push(compressed_value.0);
            if rest > 1 {
                j += 2;
            } else {
                j = n;
            }
        }
        compressed
    }

    /// Decompress encrypted data: each word, multiplied by the inverse candidate of the
    /// compression key, is emitted twice, the second time XORed with 0xAAAAAAAA.
    pub fn decompress_encrypted(&self, compressed: &[u32]) -> (r: Vec<u32>)
        requires
            compressed.len() * 2 <= usize::MAX,
        ensures
            r.len() == 2 * compressed.len(),
            forall|i: int|
                0 <= i < compressed.len() ==> {
                    &&& #[trigger] r[2 * i] == gf_mul(compressed[i], gf_inv(self.compression_word()))
                    &&& r[2 * i + 1] == gf_mul(compressed[i], gf_inv(self.compression_word())) ^ 0xAAAAAAAAu32
                },
    {
        let compression_key_inv = self.compression_key.inv();
        let mut decompressed: Vec<u32> = Vec::new();
        let mut i: usize = 0;
        while i < compressed.len()
            invariant
                0 <= i <= compressed.len(),
                compression_key_inv.0 == gf_inv(self.compression_word()),
                decompressed.len() == 2 * i,
                forall|k: int|
                    0 <= k < i ==> {
                        &&& #[trigger] decompressed[2 * k] == gf_mul(compressed[k], gf_inv(self.compression_word()))
                        &&& decompressed[2 * k + 1] == gf_mul(compressed[k], gf_inv(self.compression_word())) ^ 0xAAAAAAAAu32
                    },
            decreases compressed.len() - i,
        {
            let gf_value = GF32::new(compressed[i]);
            let d = gf_value.mul(compression_key_inv);
            let ghost before = decompressed@;
            decompressed.push(d.0);
            decompressed.push(d.0 ^ 0xAAAAAAAA);
            proof {
                assert forall|k: int| 0 <= k < i + 1 implies {
                    &&& #[trigger] decompressed[2 * k] == gf_mul(compressed[k], gf_inv(self.compression_word()))
                    &&& decompressed[2 * k + 1] == gf_mul(compressed[k], gf_inv(self.compression_word())) ^ 0xAAAAAAAAu32
                } by {
                    if k < i {
                        assert(decompressed[2 * k] == before[2 * k]);
                        assert(decompressed[2 * k + 1] == before[2 * k + 1]);
                    }
                }
            }
            i += 1;
        }
        decompressed
    }

    /// Secure packet compression (encrypt, compress, decrypt), on the bit patterns of
    /// the feature values; the result holds the bit patterns of the decrypted words.
    pub fn secure_compress(&self, feature_bits: &[u32]) -> (r: Vec<u32>)
        ensures
            r.len() == (feature_bits.len() + 1) / 2,
            forall|i: int| 0 <= i < r.len() ==> #[trigger] r[i] == gf_mul(
                compressed_word(feature_bits@.map_values(|f: u32| gf_mul(f, self.key_word())), i, self.compression_word()),
                gf_inv(self.key_word()),
            ),
    {
        let encrypted = self.encrypt(feature_bits);
        let compressed = self.compress_encrypted(&encrypted);
        assert(encrypted@ == feature_bits@.map_values(|f: u32| gf_mul(f, self.key_word())));
        self.decrypt(&compressed)
    }
}

impl Default for GaloisFieldEngine {
    fn default() -> (r: Self)
        ensures
            r.key_word() == 0x12345678,
            r.compression_word() == 0x87654321,
    {
        Self::new()
    }
}

proof fn lemma_clmul_linear_left(a1: u64, a2: u64, b: u64, n: nat)
    requires
        n <= 64,
    ensures
        clmul(a1 ^ a2, b, n) == clmul(a1, b, n) ^ clmul(a2, b, n),
    decreases n,
{
    if n == 0 {
        assert(0u64 ^ 0u64 == 0u64) by (bit_vector);
    } else {
        let k = (n - 1) as u64;
        lemma_clmul_linear_left(a1, a2, b, (n - 1) as nat);
        let x1 = clmul(a1, b, (n - 1) as nat);
        let x2 = clmul(a2, b, (n - 1) as nat);
        let bit = (b >> k) & 1 == 1;
        assert(((x1 ^ x2) ^ (if bit { (a1 ^ a2) << k } else { 0 })) == ((x1 ^ (if bit { a1 << k } else { 0 })) ^ (x2 ^ (if bit { a2 << k } else { 0 })))) by (bit_vector)
            requires
                k < 64,
        ;
    }
}

proof fn lemma_clmul_linear_right(a: u64, b1: u64, b2: u64, n: nat)
    requires
        n <= 64,
    ensures
        clmul(a, b1 ^ b2, n) == clmul(a, b1, n) ^ clmul(a, b2, n),
    decreases n,
{
    if n == 0 {
        assert(0u64 ^ 0u64 == 0u64) by (bit_vector);
    } else {
        let k = (n - 1) as u64;
        lemma_clmul_linear_right(a, b1, b2, (n - 1) as nat);
        let x1 = clmul(a, b1, (n - 1) as nat);
        let x2 = clmul(a, b2, (n - 1) as nat);
        assert(((x1 ^ x2) ^ (if ((b1 ^ b2) >> k) & 1 == 1 { a << k } else { 0 })) == ((x1 ^ (if (b1 >> k) & 1 == 1 { a << k } else { 0 })) ^ (x2 ^ (if (b2 >> k) & 1 == 1 { a << k } else { 0 })))) by (bit_vector)
            requires
                k < 64,
        ;
    }
}

proof fn lemma_reduce_linear(v1: u64, v2: u64, hi: nat)
    requires
        hi <= 64,
    ensures
        reduce_from(v1 ^ v2, hi) == reduce_from(v1, hi) ^ reduce_from(v2, hi),
    decreases hi,
{
    if hi > 32 {
        let p = (hi - 1) as u64;
        let m = IRREDUCIBLE;
        assert((if (v1 ^ v2) & (1u64 << p) != 0 { (v1 ^ v2) ^ (m << ((p - 32) as u64)) } else { v1 ^ v2 }) == ((if v1 & (1u64 << p) != 0 { v1 ^ (m << ((p - 32) as u64)) } else { v1 }) ^ (if v2 & (1u64 << p) != 0 { v2 ^ (m << ((p - 32) as u64)) } else { v2 }))) by (bit_vector)
            requires
                32 <= p < 64,
        ;
        lemma_reduce_linear(reduce_step(v1, p), reduce_step(v2, p), (hi - 1) as nat);
    }
}

proof fn lemma_casts(a: u32, b: u32, x: u64, y: u64)
    ensures
        (a ^ b) as u64 == (a as u64) ^ (b as u64),
        (x ^ y) as u32 == (x as u32) ^ (y as u32),
{
    assert((a ^ b) as u64 == (a as u64) ^ (b as u64) && (x ^ y) as u32 == (x as u32) ^ (y as u32)) by (bit_vector);
}

/// Word addition (XOR) is commutative and associative, has 0 as identity, and
/// every word is its own additive inverse.
pub proof fn law_gf_add_group(a: u32, b: u32, c: u32)
    ensures
        a ^ b == b ^ a,
        (a ^ b) ^ c == a ^ (b ^ c),
        a ^ 0 == a,
        a ^ a == 0,
{
    assert(a ^ b == b ^ a && (a ^ b) ^ c == a ^ (b ^ c) && a ^ 0 == a && a ^ a == 0) by (bit_vector);
}

/// The cipher is homomorphic for addition: encrypting a sum of words gives the
/// sum of the encrypted words, E(a) + E(b) = E(a + b), for any key.
pub proof fn law_encrypt_homomorphic(a: u32, b: u32, key: u32)
    ensures
        gf_mul(a ^ b, key) == gf_mul(a, key) ^ gf_mul(b, key),
{
    law_gf_mul_distributes(a, b, key);
}

/// Multiplication distributes over addition on both sides:
/// (a + b) * k = a * k + b * k and k * (a + b) = k * a + k * b.
pub proof fn law_gf_mul_distributes(a: u32, b: u32, k: u32)
    ensures
        gf_mul(a ^ b, k) == gf_mul(a, k) ^ gf_mul(b, k),
        gf_mul(k, a ^ b) == gf_mul(k, a) ^ gf_mul(k, b),
{
    lemma_casts(a, b, 0, 0);
    lemma_clmul_linear_left(a as u64, b as u64, k as u64, 32);
    lemma_reduce_linear(clmul(a as u64, k as u64, 32), clmul(b as u64, k as u64, 32), 64);
    lemma_casts(0, 0, reduce_from(clmul(a as u64, k as u64, 32), 64), reduce_from(clmul(b as u64, k as u64, 32), 64));
    lemma_clmul_linear_right(k as u64, a as u64, b as u64, 32);
    lemma_reduce_linear(clmul(k as u64, a as u64, 32), clmul(k as u64, b as u64, 32), 64);
    lemma_casts(0, 0, reduce_from(clmul(k as u64, a as u64, 32), 64), reduce_from(clmul(k as u64, b as u64, 32), 64));
}

/// Compression works on encrypted data: compressing the encrypted features gives,
/// for each pair of words, the compression of the encryption of their sum, so the pair
/// is compressed without being decrypted.
pub proof fn law_compress_homomorphic(f: Seq<u32>, i: int, key: u32, ck: u32)
    requires
        0 <= 2 * i < f.len(),
    ensures
        compressed_word(f.map_values(|x: u32| gf_mul(x, key)), i, ck) == gf_mul(
            gf_mul(
                f[2 * i] ^ (if 2 * i + 1 < f.len() {
                    f[2 * i + 1]
                } else {
                    0u32
                }),
                key,
            ),
            ck,
        ),
{
    let e = f.map_values(|x: u32| gf_mul(x, key));
    if 2 * i + 1 < f.len() {
        law_encrypt_homomorphic(f[2 * i], f[2 * i + 1], key);
    } else {
        law_gf_add_group(e[2 * i], 0, 0);
        law_gf_add_group(f[2 * i], 0, 0);
    }
}

/// The low `k` bits set.
spec fn mask(k: u64) -> u64 {
    ((1u64 << k) - 1) as u64
}

proof fn lemma_unit_bits(a: u64, n: u64, m: u64, k: u64)
    by (bit_vector)
    requires
        n < 32,
        m < 32,
        k < 64,
    ensures
        ((1u64 << n) >> k) & 1 == (if k == n {
            1u64
        } else {
            0u64
        }),
        (0u64 >> k) & 1 == 0,
        0u64 << k == 0,
        0u64 << n == 0,
        0u64 ^ a == a,
        a ^ 0u64 == a,
        (a & mask((m + 1) as u64)) << n == ((a & mask(m)) << n) ^ (if (a >> m) & 1 == 1 {
            (1u64 << n) << m
        } else {
            0u64
        }),
        a < 0x1_0000_0000 ==> a & mask(32) == a,
        a & mask(0) == 0,
{
}

proof fn lemma_split_top_bit(b: u64, n: u64)
    by (bit_vector)
    requires
        1 <= n <= 32,
        b < (1u64 << n),
    ensures
        b == (b & mask((n - 1) as u64)) ^ (((b >> ((n - 1) as u64)) & 1) << ((n - 1) as u64)),
        (b & mask((n - 1) as u64)) < (1u64 << ((n - 1) as u64)),
        (b >> ((n - 1) as u64)) & 1 == 0 || (b >> ((n - 1) as u64)) & 1 == 1,
        b < 0x1_0000_0000,
        (1u64 << 0u64) == 1,
{
}

proof fn lemma_clmul_zero(x: u64, m: nat)
    requires
        x < 0x1_0000_0000,
        m <= 32,
    ensures
        clmul(x, 0, m) == 0,
        clmul(0, x, m) == 0,
    decreases m,
{
    if m > 0 {
        lemma_clmul_zero(x, (m - 1) as nat);
        lemma_unit_bits(x, 0, 0, (m - 1) as u64);
        lemma_unit_bits(0, 0, 0, (m - 1) as u64);
    }
}

proof fn lemma_clmul_unit_right(a: u64, n: u64, m: nat)
    requires
        a < 0x1_0000_0000,
        n < 32,
        m <= 32,
    ensures
        clmul(a, 1u64 << n, m) == if m > n {
            a << n
        } else {
            0
        },
    decreases m,
{
    if m > 0 {
        lemma_clmul_unit_right(a, n, (m - 1) as nat);
        lemma_unit_bits(a, n, 0, (m - 1) as u64);
        lemma_unit_bits(a << n, n, 0, (m - 1) as u64);
        lemma_unit_bits(0, n, 0, (m - 1) as u64);
        let k = (m - 1) as u64;
        if k == n {
            assert(clmul(a, 1u64 << n, m) == clmul(a, 1u64 << n, (m - 1) as nat) ^ (a << n));
        } else {
            assert(clmul(a, 1u64 << n, m) == clmul(a, 1u64 << n, (m - 1) as nat) ^ 0u64);
        }
    }
}

proof fn lemma_clmul_unit_left(a: u64, n: u64, m: nat)
    requires
        a < 0x1_0000_0000,
        n < 32,
        m <= 32,
    ensures
        clmul(1u64 << n, a, m) == (a & mask(m as u64)) << n,
    decreases m,
{
    if m == 0 {
        lemma_unit_bits(a, n, 0, 0);
    } else {
        lemma_clmul_unit_left(a, n, (m - 1) as nat);
        lemma_unit_bits(a, n, (m - 1) as u64, 0);
    }
}

proof fn lemma_clmul_commutes(a: u64, b: u64, n: u64)
    requires
        a < 0x1_0000_0000,
        n <= 32,
        b < (1u64 << n),
    ensures
        clmul(a, b, 32) == clmul(b, a, 32),
    decreases n,
{
    if n == 0 {
        assert(b == 0) by (bit_vector)
            requires
                b < (1u64 << 0u64),
        ;
        lemma_clmul_zero(a, 32);
    } else {
        let k = (n - 1) as u64;
        lemma_split_top_bit(b, n);
        let low = b & mask(k);
        let c = (b >> k) & 1;
        lemma_clmul_commutes(a, low, k);
        lemma_clmul_linear_right(a, low, c << k, 32);
        lemma_clmul_linear_left(low, c << k, a, 32);
        if c == 0 {
            lemma_unit_bits(a, 0, 0, k);
            lemma_clmul_zero(a, 32);
            lemma_unit_bits(clmul(a, low, 32), 0, 0, 0);
        } else {
            lemma_clmul_unit_right(a, k, 32);
            lemma_clmul_unit_left(a, k, 32);
            lemma_unit_bits(a, k, 0, 0);
        }
    }
}

/// Word multiplication is commutative: a * b = b * a.
pub proof fn law_gf_mul_commutes(a: u32, b: u32)
    ensures
        gf_mul(a, b) == gf_mul(b, a),
{
    assert((b as u64) < (1u64 << 32u64)) by (bit_vector);
    lemma_clmul_commutes(a as u64, b as u64, 32);
}

proof fn lemma_reduce_small(v: u64, hi: nat)
    requires
        v < 0x1_0000_0000,
        hi <= 64,
    ensures
        reduce_from(v, hi) == v,
    decreases hi,
{
    if hi > 32 {
        let p = (hi - 1) as u64;
        assert(v & (1u64 << p) == 0) by (bit_vector)
            requires
                v < 0x1_0000_0000,
                32 <= p < 64,
        ;
        lemma_reduce_small(v, (hi - 1) as nat);
    }
}

/// One is the identity of word multiplication and zero absorbs it, on either side:
/// a * 1 = 1 * a = a and a * 0 = 0 * a = 0.
pub proof fn law_gf_mul_identities(a: u32)
    ensures
        gf_mul(a, 1) == a,
        gf_mul(1, a) == a,
        gf_mul(a, 0) == 0,
        gf_mul(0, a) == 0,
{
    let x = a as u64;
    assert(x < 0x1_0000_0000 && (1u64 << 0u64) == 1 && x << 0u64 == x && (x as u32) == a && (0u64 as u32) == 0u32) by (bit_vector)
        requires
            x == a as u64,
    ;
    lemma_clmul_unit_right(x, 0, 32);
    lemma_reduce_small(x, 64);
    lemma_clmul_zero(x, 32);
    lemma_reduce_small(0, 64);
    law_gf_mul_commutes(a, 1);
    law_gf_mul_commutes(a, 0);
}

/// The first powers: a^0 = 1 and a^1 = a.
pub proof fn law_gf_pow_small(a: u32)
    ensures
        gf_pow(a, 0) == 1,
        gf_pow(a, 1) == a,
{
    law_gf_mul_identities(a);
    assert(gf_pow_from(1, a, 1) == gf_pow_from(gf_mul(1, a), gf_mul(a, a), 0));
}

// Associativity of word multiplication. Reduction is linear and treats a word the way
// polynomial reduction modulo the field polynomial does: reducing a doubled value is
// reducing the double of its reduction. From that, multiplying by x commutes with
// multiplication, and associativity follows one bit at a time.

/// Reduction of a 64-bit carry-less product.
pub(crate) open spec fn red(v: u64) -> u64 {
    reduce_from(v, 64)
}

proof fn lemma_bv_reduce(v: u64, p: u64, h: u64)
    by (bit_vector)
    requires
        32 <= p < 64,
    ensures
        (p == 63 || (v >> ((p + 1) as u64)) == 0) ==> (reduce_step(v, p) >> p) == 0,
        (32 <= h <= p && (v >> h) == 0) ==> reduce_step(v, p) == v,
        reduce_step(1u64 << p, p) == 0x8Du64 << ((p - 32) as u64),
        (0x8Du64 << ((p - 32) as u64)) >> p == 0,
        p < 63 ==> ((1u64 << p) >> ((p + 1) as u64)) == 0,
        p < 63 ==> (1u64 << p) << 1u64 == 1u64 << ((p + 1) as u64),
{
}

proof fn lemma_bv_shift(y1: u64, y2: u64, k: u64)
    by (bit_vector)
    requires
        k < 64,
    ensures
        ((y1 ^ y2) << k) == (y1 << k) ^ (y2 << k),
        k < 63 ==> (y1 << k) << 1u64 == y1 << ((k + 1) as u64),
        k < 63 ==> (y1 << 1u64) << k == y1 << ((k + 1) as u64),
        ((y1 >> 32u64) == 0 && k <= 31) ==> ((y1 << k) >> 63u64) == 0,
        ((y1 >> 33u64) == 0 && k <= 30) ==> ((y1 << k) >> 63u64) == 0,
        (y1 >> 32u64) == 0 ==> ((y1 << 1u64) >> 33u64) == 0,
        (y1 >> 32u64) == 0 ==> (y1 as u32) as u64 == y1,
        (y1 >> 32u64) == 0 && (y2 >> 32u64) == 0 ==> ((y1 ^ y2) >> 32u64) == 0,
        y1 << 0u64 == y1,
        y1 >> 0u64 == y1,
        0u64 << k == 0,
        k < 32 ==> ((1u64 << k) >> 32u64) == 0,
        (y1 as u32) as u64 >> 32u64 == 0,
{
}

proof fn lemma_bv_split(y: u64, n: u64)
    by (bit_vector)
    requires
        1 <= n <= 63,
        (y >> n) == 0,
    ensures
        y == (y & mask((n - 1) as u64)) ^ (((y >> ((n - 1) as u64)) & 1) << ((n - 1) as u64)),
        ((y & mask((n - 1) as u64)) >> ((n - 1) as u64)) == 0,
        ((y >> ((n - 1) as u64)) & 1) == 0 || ((y >> ((n - 1) as u64)) & 1) == 1,
{
}

/// Reduction leaves alone the bits from `h` up when there are none.
proof fn lemma_reduce_noop(v: u64, h: nat, hi: nat)
    requires
        32 <= h <= hi <= 64,
        h < 64 ==> (v >> (h as u64)) == 0,
    ensures
        reduce_from(v, hi) == reduce_from(v, h),
    decreases hi,
{
    if hi > h {
        lemma_bv_reduce(v, (hi - 1) as u64, h as u64);
        lemma_reduce_noop(v, h, (hi - 1) as nat);
    }
}

/// A reduced value has no bits from 32 up.
proof fn lemma_reduce_bound(v: u64, hi: nat)
    requires
        32 <= hi <= 64,
        hi < 64 ==> (v >> (hi as u64)) == 0,
    ensures
        (reduce_from(v, hi) >> 32u64) == 0,
    decreases hi,
{
    if hi == 32 {
    } else {
        let p = (hi - 1) as u64;
        lemma_bv_reduce(v, p, 32);
        lemma_reduce_bound(reduce_step(v, p), (hi - 1) as nat);
    }
}

proof fn lemma_red_facts(v: u64)
    ensures
        (red(v) >> 32u64) == 0,
        red(red(v)) == red(v),
        (v >> 32u64) == 0 ==> red(v) == v,
{
    lemma_reduce_bound(v, 64);
    lemma_reduce_noop(red(v), 32, 64);
    if (v >> 32u64) == 0 {
        lemma_reduce_noop(v, 32, 64);
    }
}

/// A top bit q reduces as the rest of the polynomial placed below it.
proof fn lemma_red_top(q: u64)
    requires
        32 <= q < 64,
    ensures
        red(1u64 << q) == red(0x8Du64 << ((q - 32) as u64)),
{
    lemma_bv_reduce(0, q, 32);
    if q < 63 {
        lemma_reduce_noop(1u64 << q, (q + 1) as nat, 64);
    }
    assert(reduce_from(1u64 << q, (q + 1) as nat) == reduce_from(0x8Du64 << ((q - 32) as u64), q as nat));
    lemma_reduce_noop(0x8Du64 << ((q - 32) as u64), q as nat, 64);
}

proof fn lemma_red_linear(v1: u64, v2: u64)
    ensures
        red(v1 ^ v2) == red(v1) ^ red(v2),
{
    lemma_reduce_linear(v1, v2, 64);
}

/// Reducing a doubled value is reducing the double of its reduction.
proof fn lemma_red_double(y: u64, n: u64)
    requires
        n <= 63,
        (y >> n) == 0,
    ensures
        red(y << 1u64) == red(red(y) << 1u64),
    decreases n,
{
    lemma_bv_shift(y, 0, 0);
    lemma_bv_shift(0, 0, 1);
    if n == 0 {
        assert(y == 0);
        lemma_red_facts(0);
    } else {
        lemma_bv_split(y, n);
        let p = (n - 1) as u64;
        let low = y & mask(p);
        let b = (y >> p) & 1;
        let t = b << p;
        lemma_red_double(low, p);
        if b == 0 {
            lemma_bv_shift(0, 0, p);
            lemma_red_facts(0);
        } else {
            if p < 32 {
                lemma_bv_shift(0, 0, p);
                lemma_red_facts(t);
            } else {
                lemma_red_top(p);
                let y2 = 0x8Du64 << ((p - 32) as u64);
                lemma_bv_reduce(0, p, 32);
                lemma_red_double(y2, p);
                lemma_red_top((p + 1) as u64);
                lemma_bv_shift(0x8Du64, 0, (p - 32) as u64);
                assert((p + 1 - 32) as u64 == ((p - 32) + 1) as u64);
            }
        }
        lemma_bv_shift(low, t, 1);
        lemma_red_linear(low << 1u64, t << 1u64);
        lemma_red_linear(low, t);
        lemma_bv_shift(red(low), red(t), 1);
        lemma_red_linear(red(low) << 1u64, red(t) << 1u64);
    }
}

proof fn lemma_bv_misc(w: u64, u: u64, low: u64, bit: u64, t: u64, k: u64)
    by (bit_vector)
    requires
        k < 64,
    ensures
        w < (1u64 << 0u64) ==> w == 0,
        (u >> 32u64) == 0 ==> u < 0x1_0000_0000,
        w < 0x1_0000_0000 ==> w < (1u64 << 32u64),
        (low < (1u64 << k) && k < 32 && bit <= 1 && t == bit << k) ==> ((low >> 32u64) == 0 && (t >> 32u64) == 0),
        (bit == 0 && t == bit << k) ==> t == 0,
        1u64 << 32u64 == 0x1_0000_0000u64,
        1u64 << 0u64 == 1u64,
        (w >> 32u64) == 0 ==> w < 0x1_0000_0000,
        (1 <= k <= 32 && w < (1u64 << k)) ==> (w == (w & 1) ^ ((w >> 1u64) << 1u64) && ((w & 1) == 0 || (w & 1) == 1)
            && (w >> 1u64) < (1u64 << ((k - 1) as u64)) && ((w >> 1u64) << 1u64) < 0x1_0000_0000 && (w >> 1u64) < 0x8000_0000),
        u < 0x8000_0000 ==> (u << 1u64) < 0x1_0000_0000 && ((u << 1u64) >> 32u64) == 0,
        u < 0x1_0000_0000 ==> (u >> 32u64) == 0 && ((u << 1u64) >> 33u64) == 0,
        (u >> 32u64) == 0 ==> (u as u32) as u64 == u,
{
}

proof fn lemma_mul_red(a: u32, b: u32)
    ensures
        gf_mul(a, b) as u64 == red(clmul(a as u64, b as u64, 32)),
        (red(clmul(a as u64, b as u64, 32)) >> 32u64) == 0,
{
    let v = clmul(a as u64, b as u64, 32);
    lemma_red_facts(v);
    lemma_bv_shift(red(v), 0, 0);
}

/// Reducing after shifting by j is reducing after shifting the reduction by j.
proof fn lemma_red_shift(y: u64, j: u64)
    requires
        (y >> 33u64) == 0,
        j <= 31,
    ensures
        red(red(y) << j) == red(y << j),
    decreases j,
{
    lemma_bv_shift(y, 0, 0);
    lemma_red_facts(y);
    if j == 0 {
        lemma_bv_shift(red(y), 0, 0);
    } else {
        let jj = (j - 1) as u64;
        lemma_red_shift(y, jj);
        lemma_bv_shift(red(y), 0, jj);
        lemma_bv_shift(y, 0, jj);
        lemma_red_double(red(y) << jj, 63);
        lemma_red_double(y << jj, 63);
    }
}

/// Multiplying by x commutes with multiplication: (u * x) * w = (u * w) * x.
proof fn lemma_mul_x_commutes(u: u64, w: u64, n: u64)
    requires
        (u >> 32u64) == 0,
        n <= 32,
        w < (1u64 << n),
    ensures
        red(clmul(red(u << 1u64), w, 32)) == red(red(clmul(u, w, 32)) << 1u64),
    decreases n,
{
    let u1 = red(u << 1u64);
    lemma_red_facts(u << 1u64);
    lemma_bv_shift(u, 0, 0);
    lemma_bv_misc(w, u, 0, 0, 0, 0);
    lemma_bv_misc(w, u1, 0, 0, 0, 0);
    if n == 0 {
        lemma_clmul_zero(u1, 32);
        lemma_clmul_zero(u, 32);
        lemma_red_facts(0);
        lemma_bv_shift(0, 0, 1);
    } else {
        let k = (n - 1) as u64;
        lemma_split_top_bit(w, n);
        let low = w & mask(k);
        let c = (w >> k) & 1;
        lemma_mul_x_commutes(u, low, k);
        let t = c << k;
        if c == 0 {
            lemma_unit_bits(u, 0, 0, k);
            lemma_clmul_zero(u1, 32);
            lemma_clmul_zero(u, 32);
            lemma_red_facts(0);
            lemma_bv_shift(0, 0, 1);
        } else {
            lemma_unit_bits(u, k, 0, 0);
            lemma_clmul_unit_right(u1, k, 32);
            lemma_clmul_unit_right(u, k, 32);
            lemma_bv_shift(u << 1u64, 0, 0);
            lemma_red_shift(u << 1u64, k);
            lemma_bv_shift(u, 0, k);
            lemma_red_double(u << k, 63);
        }
        lemma_clmul_linear_right(u1, low, t, 32);
        lemma_clmul_linear_right(u, low, t, 32);
        lemma_red_linear(clmul(u1, low, 32), clmul(u1, t, 32));
        lemma_red_linear(clmul(u, low, 32), clmul(u, t, 32));
        lemma_bv_shift(red(clmul(u, low, 32)), red(clmul(u, t, 32)), 1);
        lemma_red_linear(red(clmul(u, low, 32)) << 1u64, red(clmul(u, t, 32)) << 1u64);
    }
}

/// Multiplying by x^k commutes with multiplication.
proof fn lemma_mul_xk_commutes(u: u64, w: u64, k: u64)
    requires
        (u >> 32u64) == 0,
        w < 0x1_0000_0000,
        k <= 31,
    ensures
        red(clmul(red(u << k), w, 32)) == red(red(clmul(u, w, 32)) << k),
    decreases k,
{
    lemma_bv_misc(w, u, 0, 0, 0, 0);
    lemma_bv_shift(u, 0, 0);
    if k == 0 {
        lemma_red_facts(u);
        lemma_red_facts(clmul(u, w, 32));
        lemma_bv_shift(red(clmul(u, w, 32)), 0, 0);
    } else {
        let kk = (k - 1) as u64;
        lemma_mul_xk_commutes(u, w, kk);
        let u2 = red(u << kk);
        lemma_red_facts(u << kk);
        lemma_bv_shift(u, 0, kk);
        lemma_red_double(u << kk, 63);
        lemma_mul_x_commutes(u2, w, 32);
        let m = red(clmul(u, w, 32));
        lemma_red_facts(clmul(u, w, 32));
        lemma_bv_shift(m, 0, kk);
        lemma_red_double(m << kk, 63);
    }
}

/// Word multiplication is associative: (a * b) * c = a * (b * c).
pub proof fn law_gf_mul_associative(a: u32, b: u32, c: u32)
    ensures
        gf_mul(gf_mul(a, b), c) == gf_mul(a, gf_mul(b, c)),
{
    lemma_bv_shift(c as u64, 0, 0);
    lemma_bv_misc(c as u64, c as u64, 0, 0, 0, 0);
    lemma_assoc_bits(a, b, c as u64, 32);
}

proof fn lemma_assoc_bits(a: u32, b: u32, cw: u64, n: u64)
    requires
        n <= 32,
        cw < (1u64 << n),
    ensures
        gf_mul(gf_mul(a, b), cw as u32) == gf_mul(a, gf_mul(b, cw as u32)),
    decreases n,
{
    let c = cw as u32;
    lemma_bv_misc(cw, 0, 0, 0, 0, 0);
    if n == 0 {
        law_gf_mul_identities(gf_mul(a, b));
        law_gf_mul_identities(b);
        law_gf_mul_identities(a);
    } else {
        let k = (n - 1) as u64;
        lemma_split_top_bit(cw, n);
        let low = cw & mask(k);
        let bit = (cw >> k) & 1;
        let t = bit << k;
        lemma_assoc_bits(a, b, low, k);
        lemma_bv_shift(low, t, 0);
        lemma_casts(0, 0, low, t);
        lemma_bv_misc(0, 0, low, bit, t, k);
        lemma_bv_shift(low, 0, 0);
        lemma_bv_shift(t, 0, 0);
        if bit == 0 {
            law_gf_mul_identities(gf_mul(a, b));
            law_gf_mul_identities(b);
            law_gf_mul_identities(a);
        } else {
            let ab = gf_mul(a, b);
            lemma_mul_red(ab, t as u32);
            lemma_unit_bits(0, k, 0, 0);
            lemma_clmul_unit_right(ab as u64, k, 32);
            lemma_mul_red(b, t as u32);
            lemma_clmul_unit_right(b as u64, k, 32);
            let bk = gf_mul(b, t as u32);
            lemma_mul_red(a, bk);
            law_gf_mul_commutes(a, bk);
            lemma_mul_red(bk, a);
            lemma_bv_shift(b as u64, 0, 0);
            assert((a as u64) < 0x1_0000_0000);
            lemma_mul_xk_commutes(b as u64, a as u64, k);
            lemma_mul_red(b, a);
            law_gf_mul_commutes(a, b);
            lemma_mul_red(a, b);
        }
        law_gf_mul_distributes(low as u32, t as u32, gf_mul(a, b));
        law_gf_mul_commutes(gf_mul(a, b), low as u32 ^ t as u32);
        law_gf_mul_commutes(gf_mul(a, b), low as u32);
        law_gf_mul_commutes(gf_mul(a, b), t as u32);
        law_gf_mul_distributes(low as u32, t as u32, b);
        law_gf_mul_distributes(gf_mul(b, low as u32), gf_mul(b, t as u32), a);
    }
}

/// Decryption undoes encryption for a key that its inverse candidate inverts:
/// (x * k) * k^-1 = x when k * k^-1 = 1.
pub proof fn law_decrypt_undoes_encrypt(x: u32, key: u32)
    requires
        gf_mul(key, gf_inv(key)) == 1,
    ensures
        gf_mul(gf_mul(x, key), gf_inv(key)) == x,
{
    law_gf_mul_associative(x, key, gf_inv(key));
    law_gf_mul_identities(x);
}

/// Decompression gives back the pairs that compression added up, for a compression
/// key that its inverse candidate inverts: word 2i of the decompression is the sum of
/// words 2i and 2i+1 (0 past the end), and word 2i+1 is that sum XOR 0xAAAAAAAA.
pub proof fn law_decompress_undoes_compress(e: Seq<u32>, i: int, ck: u32)
    requires
        gf_mul(ck, gf_inv(ck)) == 1,
        0 <= 2 * i < e.len(),
    ensures
        gf_mul(compressed_word(e, i, ck), gf_inv(ck)) == e[2 * i] ^ (if 2 * i + 1 < e.len() {
            e[2 * i + 1]
        } else {
            0u32
        }),
        gf_mul(compressed_word(e, i, ck), gf_inv(ck)) ^ 0xAAAAAAAAu32 == (e[2 * i] ^ (if 2 * i
            + 1 < e.len() {
            e[2 * i + 1]
        } else {
            0u32
        })) ^ 0xAAAAAAAAu32,
{
    let b = if 2 * i + 1 < e.len() {
        e[2 * i + 1]
    } else {
        0u32
    };
    law_decrypt_undoes_encrypt(e[2 * i] ^ b, ck);
}

/// `a` multiplied by itself `e` times (1 for e = 0).
pub open spec fn gf_power(a: u32, e: nat) -> u32
    decreases e,
{
    if e == 0 {
        1
    } else {
        gf_mul(gf_power(a, (e - 1) as nat), a)
    }
}

proof fn lemma_power_add(a: u32, m: nat, n: nat)
    ensures
        gf_power(a, m + n) == gf_mul(gf_power(a, m), gf_power(a, n)),
    decreases n,
{
    if n == 0 {
        law_gf_mul_identities(gf_power(a, m));
    } else {
        lemma_power_add(a, m, (n - 1) as nat);
        assert((m + n - 1) as nat == m + (n - 1) as nat);
        law_gf_mul_associative(gf_power(a, m), gf_power(a, (n - 1) as nat), a);
    }
}

proof fn lemma_power_square(b: u32, m: nat)
    ensures
        gf_power(gf_mul(b, b), m) == gf_power(b, 2 * m),
    decreases m,
{
    if m > 0 {
        lemma_power_square(b, (m - 1) as nat);
        let k = (2 * (m - 1)) as nat;
        assert(gf_power(b, k + 1) == gf_mul(gf_power(b, k), b));
        assert(gf_power(b, k + 2) == gf_mul(gf_power(b, k + 1), b));
        assert(2 * m == k + 2);
        law_gf_mul_associative(gf_power(b, k), b, b);
    }
}

proof fn lemma_pow_from_power(acc: u32, base: u32, exp: u32)
    ensures
        gf_pow_from(acc, base, exp) == gf_mul(acc, gf_power(base, exp as nat)),
    decreases exp,
{
    if exp == 0 {
        law_gf_mul_identities(acc);
    } else {
        let h = exp / 2;
        lemma_power_square(base, h as nat);
        if exp % 2 == 1 {
            lemma_pow_from_power(gf_mul(acc, base), gf_mul(base, base), h);
            assert(exp as nat == 2 * (h as nat) + 1);
            assert(gf_power(base, exp as nat) == gf_mul(gf_power(base, 2 * (h as nat)), base));
            law_gf_mul_commutes(gf_power(base, 2 * (h as nat)), base);
            law_gf_mul_associative(acc, base, gf_power(base, 2 * (h as nat)));
        } else {
            lemma_pow_from_power(acc, gf_mul(base, base), h);
            assert(exp as nat == 2 * (h as nat));
        }
    }
}

/// Square-and-multiply computes the power: a.pow(e) is a multiplied by itself e times.
pub proof fn law_gf_pow_is_power(a: u32, e: u32)
    ensures
        gf_pow(a, e) == gf_power(a, e as nat),
{
    lemma_pow_from_power(1, a, e);
    law_gf_mul_identities(gf_power(a, e as nat));
}

/// Exponents add: a^(e1 + e2) = a^e1 * a^e2.
pub proof fn law_gf_pow_adds(a: u32, e1: u32, e2: u32)
    requires
        e1 + e2 <= u32::MAX,
    ensures
        gf_pow(a, (e1 + e2) as u32) == gf_mul(gf_pow(a, e1), gf_pow(a, e2)),
{
    law_gf_pow_is_power(a, (e1 + e2) as u32);
    law_gf_pow_is_power(a, e1);
    law_gf_pow_is_power(a, e2);
    lemma_power_add(a, e1 as nat, e2 as nat);
}

pub(crate) proof fn lemma_mul_red_pub(a: u32, b: u32)
    ensures
        gf_mul(a, b) as u64 == red(clmul(a as u64, b as u64, 32)),
{
    lemma_mul_red(a, b);
}

// The shift-and-add product of the QAGML engine (multiply by x with `xtime`, add where
// the multiplier has a bit) computes the same product.

proof fn lemma_xtime_is_red(a: u64)
    requires
        a < 0x1_0000_0000,
    ensures
        crate::qagml_engine::xtime(a) == red(a << 1u64),
        crate::qagml_engine::xtime(a) < 0x1_0000_0000,
{
    lemma_bv_misc(0, a, 0, 0, 0, 0);
    lemma_reduce_noop(a << 1u64, 33, 64);
    lemma_bv_shift(crate::gf32::IRREDUCIBLE, 0, 0);
    assert(reduce_from(reduce_step(a << 1u64, 32), 32) == reduce_step(a << 1u64, 32));
    assert(reduce_from(a << 1u64, 33) == reduce_step(a << 1u64, 32));
    lemma_red_facts(a << 1u64);
    lemma_bv_misc(red(a << 1u64), 0, 0, 0, 0, 0);
}

/// Doubling the multiplier is doubling the multiplicand: a * (2b) = (x a) * b.
proof fn lemma_double_multiplier(a: u64, b: u64)
    requires
        a < 0x1_0000_0000,
        b < 0x8000_0000,
    ensures
        red(clmul(a, b << 1u64, 32)) == red(clmul(red(a << 1u64), b, 32)),
{
    lemma_bv_misc(0, b, 0, 0, 0, 0);
    lemma_bv_misc(0, a, 0, 0, 0, 0);
    lemma_bv_misc(b, b, 0, 0, 0, 0);
    lemma_mul_x_commutes(a, b, 32);
    lemma_bv_misc(b << 1u64, 0, 0, 0, 0, 0);
    lemma_bv_misc(a, 0, 0, 0, 0, 0);
    lemma_clmul_commutes(a, b << 1u64, 32);
    lemma_red_facts(b << 1u64);
    lemma_mul_x_commutes(b, a, 32);
    lemma_clmul_commutes(a, b, 32);
}

pub(crate) proof fn lemma_mul_steps_is_product(a: u64, b: u64, n: u64)
    requires
        a < 0x1_0000_0000,
        n <= 32,
        b < (1u64 << n),
    ensures
        crate::qagml_engine::mul_steps(a, b, n as nat) as u64 == red(clmul(a, b, 32)),
    decreases n,
{
    lemma_bv_misc(b, a, 0, 0, 0, 0);
    if n == 0 || b == 0 {
        lemma_clmul_zero(a, 32);
        lemma_bv_misc(0, 0, 0, 0, 0, 0);
        lemma_red_facts(0);
        assert(b == 0);
        assert(red(clmul(a, b, 32)) == 0);
    } else {
        lemma_bv_misc(b, a, 0, 0, 0, n);
        let lo = b & 1;
        let hi = b >> 1u64;
        lemma_xtime_is_red(a);
        let xa = crate::qagml_engine::xtime(a);
        lemma_mul_steps_is_product(xa, hi, (n - 1) as u64);
        lemma_double_multiplier(a, hi);
        lemma_clmul_linear_right(a, lo, hi << 1u64, 32);
        lemma_red_linear(clmul(a, lo, 32), clmul(a, hi << 1u64, 32));
        let first: u32 = if b & 1u64 != 0 { a as u32 } else { 0u32 };
        lemma_bv_misc(0, 0, 0, 0, 0, 0);
        if lo == 1 {
            lemma_clmul_unit_right(a, 0, 32);
            lemma_bv_shift(a, 0, 0);
            lemma_red_facts(a);
            assert(clmul(a, lo, 32) == a);
            assert(first as u64 == a);
        } else {
            lemma_clmul_zero(a, 32);
            lemma_red_facts(0);
            assert(lo == 0);
            assert(clmul(a, lo, 32) == 0);
            assert(first == 0);
        }
        let rest = crate::qagml_engine::mul_steps(xa, hi, (n - 1) as nat);
        lemma_casts(first, rest, 0, 0);
        lemma_bv_misc(0, a, 0, 0, 0, 0);
        assert(crate::qagml_engine::mul_steps(a, b, n as nat) == first ^ rest);
        assert(b == lo ^ (hi << 1u64));
        assert(rest as u64 == red(clmul(a, hi << 1u64, 32)));
        assert(first as u64 == red(clmul(a, lo, 32)));
        assert((first ^ rest) as u64 == (first as u64) ^ (rest as u64));
        assert(red(clmul(a, b, 32)) == red(clmul(a, lo, 32)) ^ red(clmul(a, hi << 1u64, 32)));
    }
}


} // verus!
