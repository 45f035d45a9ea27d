//! Engines of the QAGML memory path that work on whole machine words: address
//! scrambling by multiplication in GF(2^32) with a memo table of products, and
//! branch-free selection between two addresses.
use vstd::prelude::*;
use std::collections::HashMap;
use crate::qagml::QagmlConfig;

verus! {

broadcast use vstd::std_specs::hash::group_hash_axioms;

/// The reduction polynomial x^32 + x^7 + x^3 + x^2 + 1.
pub const FIELD_POLYNOMIAL: u64 = 0x1_0000_008D;

/// Multiplication by x: shift left, and reduce when bit 32 comes up.
pub open spec fn xtime(a: u64) -> u64 {
    if (a << 1u64) & 0x1_0000_0000u64 != 0 {
        (a << 1u64) ^ FIELD_POLYNOMIAL
    } else {
        a << 1u64
    }
}

/// Shift-and-add product over the low `n` bits of `b`, stopping when `b` runs out.
pub open spec fn mul_steps(a: u64, b: u64, n: nat) -> u32
    decreases n,
{
    if n == 0 || b == 0 {
        0
    } else {
        (if b & 1u64 != 0 {
            a as u32
        } else {
            0u32
        }) ^ mul_steps(xtime(a), b >> 1u64, (n - 1) as nat)
    }
}

/// The product of `a` and `b` in GF(2^32) modulo the reduction polynomial.
pub open spec fn field_mul(a: u32, b: u32) -> u32 {
    mul_steps(a as u64, b as u64, 32)
}

/// Key of the memo entry for the product of `a` and `b`.
pub open spec fn memo_key(a: u32, b: u32) -> u64 {
    ((a as u64) << 32u64) | (b as u64)
}

/// The scrambled form of an address: its low and high halves multiplied by two
/// fixed field elements.
pub open spec fn encrypted_address(address: u64) -> u64 {
    ((field_mul((address >> 32u64) as u32, 0x7f4a7c15u32) as u64) << 32u64) | (field_mul(
        address as u32,
        0x9e3779b9u32,
    ) as u64)
}

proof fn lemma_memo_key_injective(a: u32, b: u32, c: u32, d: u32)
    ensures
        memo_key(a, b) == memo_key(c, d) ==> a == c && b == d,
{
    assert((((a as u64) << 32u64) | (b as u64)) == (((c as u64) << 32u64) | (d as u64)) ==> a == c && b
        == d) by (bit_vector);
}

proof fn lemma_step(result: u32, f: u32, a: u64, b: u64, i: u64)
    by (bit_vector)
    requires
        a < 0x1_0000_0000,
        i <= 32,
        b < 0x1_0000_0000,
    ensures
        xtime(a) < 0x1_0000_0000,
        (b >> i) != 0 ==> i < 32,
        (b >> i) >> 1u64 == b >> ((i + 1) as u64),
        (b >> i) != 0 ==> (b >> i) >> 1u64 < (b >> i),
        b >> 0u64 == b,
        result ^ 0u32 == result,
        0u32 ^ f == f,
        forall|x: u32, y: u32| #[trigger] (result ^ (x ^ y)) == (result ^ x) ^ y,
{
}

/// Multiplier in GF(2^32) that remembers the products it has computed.
pub struct GaloisFieldEngine {
    irreducible: u64,
    mult_table: HashMap<u64, u32>,
}

impl GaloisFieldEngine {
    /// The reduction polynomial is fixed, and every remembered product is correct.
    pub closed spec fn wf(&self) -> bool {
        &&& self.irreducible == FIELD_POLYNOMIAL
        &&& forall|a: u32, b: u32|
            #[trigger] self.mult_table@.contains_key(memo_key(a, b)) ==> self.mult_table@[memo_key(a, b)]
                == field_mul(a, b)
    }

    /// Products remembered so far, by key.
    pub closed spec fn memo(&self) -> Map<u64, u32> {
        self.mult_table@
    }

    pub fn new() -> (r: Self)
        ensures
            r.wf(),
            r.memo().len() == 0,
    {
        Self { irreducible: 0x10000008D, mult_table: HashMap::new() }
    }

    /// Scramble an address by multiplying its halves by fixed field elements.
    pub fn encrypt_address(&mut self, address: u64) -> (r: u64)
        requires
            old(self).wf(),
        ensures
            final(self).wf(),
            r == encrypted_address(address),
    {
        let low = (address & 0xFFFFFFFF) as u32;
        let high = ((address >> 32) & 0xFFFFFFFF) as u32;
        assert(low == address as u32 && high == (address >> 32u64) as u32) by (bit_vector)
            requires
                low == (address & 0xFFFFFFFF) as u32,
                high == ((address >> 32) & 0xFFFFFFFF) as u32,
        ;
        let enc_low = self.gf_multiply(low, 0x9e3779b9);
        let enc_high = self.gf_multiply(high, 0x7f4a7c15);
        ((enc_high as u64) << 32) | (enc_low as u64)
    }

    /// Product of `a` and `b` in GF(2^32), from the memo table when it is there.
    pub fn gf_multiply(&mut self, a: u32, b: u32) -> (r: u32)
        requires
            old(self).wf(),
        ensures
            final(self).wf(),
            r == field_mul(a, b),
            final(self).memo().contains_key(memo_key(a, b)),
            final(self).memo().dom() == old(self).memo().dom().insert(memo_key(a, b)),
    {
        let key: u64 = ((a as u64) << 32) | (b as u64);
        assert(key == memo_key(a, b));
        match self.mult_table.get(&key) {
            Some(result) => {
                let result = *result;
                assert(self.mult_table@.dom().insert(key) == self.mult_table@.dom());
                return result;
            },
            None => {},
        }
        let mut result: u32 = 0;
        let mut temp_a: u64 = a as u64;
        let mut temp_b: u64 = b as u64;
        let ghost mut i: u64 = 0;
        proof {
            lemma_step(result, field_mul(a, b), temp_a, b as u64, i);
        }
        while temp_b > 0
            invariant
                i <= 32,
                temp_a < 0x1_0000_0000,
                temp_b == (b as u64) >> i,
                result ^ mul_steps(temp_a, temp_b, (32 - i) as nat) == field_mul(a, b),
                self.irreducible == FIELD_POLYNOMIAL,
            decreases temp_b,
        {
            proof {
                lemma_step(result, 0, temp_a, b as u64, i);
            }
            let bit = if temp_b & 1 != 0 {
                temp_a as u32
            } else {
                0u32
            };
            let ghost rest = mul_steps(xtime(temp_a), temp_b >> 1u64, (32 - i - 1) as nat);
            assert(mul_steps(temp_a, temp_b, (32 - i) as nat) == bit ^ rest);
            result ^= bit;
            temp_a <<= 1;
            if temp_a & 0x100000000 != 0 {
                temp_a ^= self.irreducible;
            }
            temp_b >>= 1;
            proof {
                i = (i + 1) as u64;
            }
        }
        proof {
            lemma_step(result, 0, temp_a, b as u64, i);
        }
        let ghost old_table = self.mult_table@;
        self.mult_table.insert(key, result);
        proof {
            assert forall|c: u32, d: u32| #[trigger] self.mult_table@.contains_key(memo_key(c, d)) implies self.mult_table@[memo_key(c, d)]
                == field_mul(c, d) by {
                lemma_memo_key_injective(a, b, c, d);
                if memo_key(c, d) != key {
                    assert(old_table.contains_key(memo_key(c, d)));
                }
            }
        }
        result
    }
}

/// Selection between two words without a branch on the condition.
pub struct BranchFreeEngine;

impl BranchFreeEngine {
    pub fn new() -> (r: Self) {
        Self
    }

    /// `a` when the condition holds, `b` otherwise, computed through a mask.
    pub fn branchless_select(&self, condition: bool, a: u64, b: u64) -> (r: u64)
        ensures
            r == if condition {
                a
            } else {
                b
            },
    {
        let c: u64 = if condition {
            1
        } else {
            0
        };
        let mask = 0u64.wrapping_sub(c);
        assert(mask == if condition {
            u64::MAX
        } else {
            0u64
        });
        let r = (a & mask) | (b & !mask);
        assert((a & u64::MAX) | (b & !u64::MAX) == a && (a & 0u64) | (b & !0u64) == b) by (bit_vector);
        r
    }
}

/// Number of recent accesses that the access history keeps.
pub const HISTORY_LIMIT: usize = 1000;

/// The access history after recording `address`: appended, and the oldest entry
/// dropped once the history would exceed its limit.
pub open spec fn recorded(history: Seq<u64>, address: u64) -> Seq<u64> {
    if history.len() + 1 > HISTORY_LIMIT {
        history.push(address).drop_first()
    } else {
        history.push(address)
    }
}

/// The data that a read of `size` bytes at `address` produces when nothing is cached
/// there: every byte is the low byte of the address, or of its scrambled form for
/// reads of 4096 bytes or more.
pub open spec fn generated_data(address: u64, size: usize) -> Seq<u8> {
    let final_addr = if size < 4096 {
        address
    } else {
        encrypted_address(address)
    };
    Seq::new(size as nat, |i: int| (final_addr % 256) as u8)
}

/// Main QAGML engine: a virtual memory whose reads are served from a cache of
/// written and generated data, with the counters of its accesses.
pub struct QagmlEngine {
    config: QagmlConfig,
    cache: HashMap<u64, Vec<u8>>,
    hits: u64,
    misses: u64,
    galois_field: GaloisFieldEngine,
    branch_free: BranchFreeEngine,
    history: Vec<u64>,
    memory_accesses: u64,
    bytes_processed: u64,
}

impl QagmlEngine {
    /// The engine's parts are well formed.
    pub closed spec fn wf(&self) -> bool {
        &&& self.galois_field.wf()
        &&& self.history.len() <= HISTORY_LIMIT
    }

    /// The configuration the engine was made with.
    pub closed spec fn config(&self) -> QagmlConfig {
        self.config
    }

    /// What the cache holds, by address.
    pub closed spec fn cached(&self) -> Map<u64, Seq<u8>> {
        self.cache@.map_values(|v: Vec<u8>| v@)
    }

    /// Reads served from the cache.
    pub closed spec fn hit_count(&self) -> u64 {
        self.hits
    }

    /// Reads not served from the cache.
    pub closed spec fn miss_count(&self) -> u64 {
        self.misses
    }

    /// Recent accesses, oldest first.
    pub closed spec fn access_history(&self) -> Seq<u64> {
        self.history@
    }

    /// Reads and writes performed (wrapping).
    pub closed spec fn access_count(&self) -> u64 {
        self.memory_accesses
    }

    /// Bytes generated or written (wrapping).
    pub closed spec fn byte_count(&self) -> u64 {
        self.bytes_processed
    }

    pub fn new(config: QagmlConfig) -> (r: Self)
        ensures
            r.wf(),
            r.config() == config,
            r.cached() == Map::<u64, Seq<u8>>::empty(),
            r.hit_count() == 0 && r.miss_count() == 0,
            r.access_history() == Seq::<u64>::empty(),
            r.access_count() == 0 && r.byte_count() == 0,
    {
        let r = Self {
            config,
            cache: HashMap::new(),
            hits: 0,
            misses: 0,
            galois_field: GaloisFieldEngine::new(),
            branch_free: BranchFreeEngine::new(),
            history: Vec::new(),
            memory_accesses: 0,
            bytes_processed: 0,
        };
        assert(r.cached() =~= Map::<u64, Seq<u8>>::empty());
        r
    }

    /// Record an access in the history.
    fn record_access(&mut self, address: u64)
        requires
            old(self).wf(),
        ensures
            final(self).wf(),
            final(self).access_history() == recorded(old(self).access_history(), address),
            final(self).cache == old(self).cache,
            final(self).config == old(self).config,
            final(self).hits == old(self).hits,
            final(self).misses == old(self).misses,
            final(self).galois_field == old(self).galois_field,
            final(self).memory_accesses == old(self).memory_accesses,
            final(self).bytes_processed == old(self).bytes_processed,
    {
        self.history.push(address);
        if self.history.len() > HISTORY_LIMIT {
            self.history.remove(0);
        }
    }

    /// Read `size` bytes at `address`: the cached data when there is some, else
    /// generated data, which is then cached.
    pub fn read_memory(&mut self, address: u64, size: usize) -> (r: Vec<u8>)
        requires
            old(self).wf(),
            !old(self).cached().contains_key(address) ==> address + size <= u64::MAX && address < u64::MAX,
        ensures
            final(self).wf(),
            final(self).config() == old(self).config(),
            final(self).access_history() == recorded(old(self).access_history(), address),
            final(self).access_count() == old(self).access_count().wrapping_add(1),
            old(self).cached().contains_key(address) ==> {
                &&& r@ == old(self).cached()[address]
                &&& final(self).cached() == old(self).cached()
                &&& final(self).hit_count() == old(self).hit_count().wrapping_add(1)
                &&& final(self).miss_count() == old(self).miss_count()
                &&& final(self).byte_count() == old(self).byte_count()
            },
            !old(self).cached().contains_key(address) ==> {
                &&& r@ == generated_data(address, size)
                &&& final(self).cached() == old(self).cached().insert(address, r@)
                &&& final(self).hit_count() == old(self).hit_count()
                &&& final(self).miss_count() == old(self).miss_count().wrapping_add(1)
                &&& final(self).byte_count() == old(self).byte_count().wrapping_add(size as u64)
            },
    {
        self.record_access(address);
        match self.cache.get(&address) {
            Some(data) => {
                let copy = vstd::slice::slice_to_vec(data.as_slice());
                self.hits = self.hits.wrapping_add(1);
                self.memory_accesses = self.memory_accesses.wrapping_add(1);
                return copy;
            },
            None => {},
        }
        self.misses = self.misses.wrapping_add(1);
        let encrypted_addr = self.galois_field.encrypt_address(address);
        let use_cache = size < 4096;
        let final_addr = self.branch_free.branchless_select(use_cache, address, encrypted_addr);
        let byte = (final_addr % 256) as u8;
        let mut data: Vec<u8> = Vec::new();
        let mut i: usize = 0;
        while i < size
            invariant
                0 <= i <= size,
                data.len() == i,
                forall|k: int| 0 <= k < i ==> #[trigger] data[k] == byte,
            decreases size - i,
        {
            data.push(byte);
            i += 1;
        }
        assert(data@ == generated_data(address, size));
        let ghost old_cache = self.cache@;
        self.cache.insert(address, vstd::slice::slice_to_vec(data.as_slice()));
        proof {
            assert(self.cache@.map_values(|v: Vec<u8>| v@) =~= old_cache.map_values(|v: Vec<u8>| v@).insert(
                address,
                data@,
            ));
        }
        self.memory_accesses = self.memory_accesses.wrapping_add(1);
        self.bytes_processed = self.bytes_processed.wrapping_add(size as u64);
        data
    }

    /// Write `data` at `address`: it is cached there, and later reads return it.
    pub fn write_memory(&mut self, address: u64, data: Vec<u8>)
        requires
            old(self).wf(),
        ensures
            final(self).wf(),
            final(self).config() == old(self).config(),
            final(self).access_history() == recorded(old(self).access_history(), address),
            final(self).cached() == old(self).cached().insert(address, data@),
            final(self).hit_count() == old(self).hit_count(),
            final(self).miss_count() == old(self).miss_count(),
            final(self).access_count() == old(self).access_count().wrapping_add(1),
            final(self).byte_count() == old(self).byte_count().wrapping_add(data.len() as u64),
    {
        self.record_access(address);
        let len = data.len() as u64;
        let ghost old_cache = self.cache@;
        let ghost written = data@;
        self.cache.insert(address, data);
        proof {
            assert(self.cache@.map_values(|v: Vec<u8>| v@) =~= old_cache.map_values(|v: Vec<u8>| v@).insert(
                address,
                written,
            ));
        }
        self.memory_accesses = self.memory_accesses.wrapping_add(1);
        self.bytes_processed = self.bytes_processed.wrapping_add(len);
    }

    /// Whether data for `address` is cached.
    pub fn is_cached(&self, address: u64) -> (r: bool)
        ensures
            r == self.cached().contains_key(address),
    {
        self.cache.contains_key(&address)
    }

    /// Reads served from the cache.
    pub fn cache_hits(&self) -> (r: u64)
        ensures
            r == self.hit_count(),
    {
        self.hits
    }

    /// Reads not served from the cache.
    pub fn cache_misses(&self) -> (r: u64)
        ensures
            r == self.miss_count(),
    {
        self.misses
    }

    /// Reads and writes performed.
    pub fn memory_accesses(&self) -> (r: u64)
        ensures
            r == self.access_count(),
    {
        self.memory_accesses
    }

    /// Bytes generated or written.
    pub fn bytes_processed(&self) -> (r: u64)
        ensures
            r == self.byte_count(),
    {
        self.bytes_processed
    }

    /// Recent accesses, oldest first.
    pub fn history(&self) -> (r: &[u64])
        ensures
            r@ == self.access_history(),
    {
        self.history.as_slice()
    }

    /// The configuration.
    pub fn configuration(&self) -> (r: QagmlConfig)
        ensures
            r == self.config(),
    {
        self.config
    }
}

/// What a read gives back of a write: after `data` is written at an address, a read
/// of any size at that address returns `data`.
pub proof fn law_read_after_write(e0: QagmlEngine, e1: QagmlEngine, address: u64, data: Seq<u8>, r: Seq<u8>)
    requires
        e1.cached() == e0.cached().insert(address, data),
        e1.cached().contains_key(address) ==> r == e1.cached()[address],
    ensures
        r == data,
{
}

/// Reads are repeatable: a second read at an address returns what the first returned,
/// whether the first was served from the cache or generated.
pub proof fn law_read_repeatable(e0: QagmlEngine, e1: QagmlEngine, address: u64, size: usize, r1: Seq<u8>, r2: Seq<u8>)
    requires
        e0.cached().contains_key(address) ==> r1 == e0.cached()[address] && e1.cached() == e0.cached(),
        !e0.cached().contains_key(address) ==> r1 == generated_data(address, size) && e1.cached()
            == e0.cached().insert(address, r1),
        e1.cached().contains_key(address) ==> r2 == e1.cached()[address],
    ensures
        r2 == r1,
{
}

proof fn lemma_mul_steps_zero(b: u64, n: nat)
    ensures
        mul_steps(0, b, n) == 0,
    decreases n,
{
    assert(xtime(0) == 0 && (0u64 as u32) == 0u32 && (0u32 ^ 0u32) == 0u32) by (bit_vector);
    if n > 0 && b != 0 {
        lemma_mul_steps_zero(b >> 1u64, (n - 1) as nat);
    }
}

/// Address 0 scrambles to 0: both of its halves are the field's zero.
pub proof fn law_encrypt_address_zero()
    ensures
        encrypted_address(0) == 0,
{
    assert(((0u64 >> 32u64) as u32) == 0u32 && (0u64 as u32) == 0u32) by (bit_vector);
    lemma_mul_steps_zero(0x7f4a7c15u64, 32);
    lemma_mul_steps_zero(0x9e3779b9u64, 32);
    assert(((0u32 as u64) << 32u64) | (0u32 as u64) == 0u64) by (bit_vector);
}

/// The engine's shift-and-add product is the word field's product: `field_mul` agrees
/// with `gf32::gf_mul` (the same field, the same polynomial), so the word-field laws
/// hold of it.
pub proof fn law_field_mul_is_gf_mul(a: u32, b: u32)
    ensures
        field_mul(a, b) == crate::gf32::gf_mul(a, b),
{
    assert((a as u64) < 0x1_0000_0000 && (b as u64) < (1u64 << 32u64)) by (bit_vector);
    crate::gf32::lemma_mul_steps_is_product(a as u64, b as u64, 32);
    crate::gf32::lemma_mul_red_pub(a, b);
}

proof fn lemma_bv_times_x(a: u64)
    by (bit_vector)
    requires
        a < 0x1_0000_0000,
    ensures
        (2u64 & 1u64 != 0) == false,
        2u64 >> 1u64 == 1u64,
        (1u64 & 1u64 != 0) == true,
        1u64 >> 1u64 == 0u64,
        0u32 ^ ((xtime(a) as u32) ^ 0u32) == xtime(a) as u32,
        a < 0x8000_0000 ==> (xtime(a) as u32) as int == 2 * a,
        a >= 0x8000_0000 ==> (xtime(a) as u32) == ((2 * a - 0x1_0000_0000) as u32) ^ 0x8Du32,
{
}

/// Multiplying by x (the word 2) in GF(2^32) doubles a word whose top bit is clear;
/// when the top bit is set, the x^32 that comes up is replaced by the rest of the
/// field polynomial, x^7 + x^3 + x^2 + 1 (0x8D).
pub proof fn law_times_x(a: u32)
    ensures
        a < 0x8000_0000 ==> crate::gf32::gf_mul(a, 2) as int == 2 * a,
        a >= 0x8000_0000 ==> crate::gf32::gf_mul(a, 2) == ((2 * a - 0x1_0000_0000) as u32) ^ 0x8Du32,
{
    law_field_mul_is_gf_mul(a, 2);
    let a64 = a as u64;
    lemma_bv_times_x(a64);
    assert(mul_steps(xtime(xtime(a64)), 0u64, 30) == 0u32);
    assert(mul_steps(xtime(a64), 1u64, 31) == (xtime(a64) as u32) ^ 0u32);
    assert(mul_steps(a64, 2u64, 32) == 0u32 ^ ((xtime(a64) as u32) ^ 0u32));
}

// The two scrambling constants are invertible: the products below, carried out step
// by step, give 1.

proof fn lemma_steps_high()
    by (bit_vector)
    ensures
        xtime(0x7f4a7c15u64) == 0xfe94f82au64,
        (0xfcf6e3acu64 >> 1u64) == 0x7e7b71d6u64,
        (0xfcf6e3acu64 & 1u64 != 0) == false,
        (0x0u32 ^ 0x1u32) == 0x1u32,
        xtime(0xfe94f82au64) == 0xfd29f0d9u64,
        (0x7e7b71d6u64 >> 1u64) == 0x3f3db8ebu64,
        (0x7e7b71d6u64 & 1u64 != 0) == false,
        (0x0u32 ^ 0x1u32) == 0x1u32,
        xtime(0xfd29f0d9u64) == 0xfa53e13fu64,
        (0x3f3db8ebu64 >> 1u64) == 0x1f9edc75u64,
        (0x3f3db8ebu64 & 1u64 != 0) == true,
        (0xfd29f0d9u64 as u32) == 0xfd29f0d9u32,
        (0xfd29f0d9u32 ^ 0xfd29f0d8u32) == 0x1u32,
        xtime(0xfa53e13fu64) == 0xf4a7c2f3u64,
        (0x1f9edc75u64 >> 1u64) == 0xfcf6e3au64,
        (0x1f9edc75u64 & 1u64 != 0) == true,
        (0xfa53e13fu64 as u32) == 0xfa53e13fu32,
        (0xfa53e13fu32 ^ 0x77a11e7u32) == 0xfd29f0d8u32,
        xtime(0xf4a7c2f3u64) == 0xe94f856bu64,
        (0xfcf6e3au64 >> 1u64) == 0x7e7b71du64,
        (0xfcf6e3au64 & 1u64 != 0) == false,
        (0x0u32 ^ 0x77a11e7u32) == 0x77a11e7u32,
        xtime(0xe94f856bu64) == 0xd29f0a5bu64,
        (0x7e7b71du64 >> 1u64) == 0x3f3db8eu64,
        (0x7e7b71du64 & 1u64 != 0) == true,
        (0xe94f856bu64 as u32) == 0xe94f856bu32,
        (0xe94f856bu32 ^ 0xee35948cu32) == 0x77a11e7u32,
        xtime(0xd29f0a5bu64) == 0xa53e143bu64,
        (0x3f3db8eu64 >> 1u64) == 0x1f9edc7u64,
        (0x3f3db8eu64 & 1u64 != 0) == false,
        (0x0u32 ^ 0xee35948cu32) == 0xee35948cu32,
        xtime(0xa53e143bu64) == 0x4a7c28fbu64,
        (0x1f9edc7u64 >> 1u64) == 0xfcf6e3u64,
        (0x1f9edc7u64 & 1u64 != 0) == true,
        (0xa53e143bu64 as u32) == 0xa53e143bu32,
        (0xa53e143bu32 ^ 0x4b0b80b7u32) == 0xee35948cu32,
        xtime(0x4a7c28fbu64) == 0x94f851f6u64,
        (0xfcf6e3u64 >> 1u64) == 0x7e7b71u64,
        (0xfcf6e3u64 & 1u64 != 0) == true,
        (0x4a7c28fbu64 as u32) == 0x4a7c28fbu32,
        (0x4a7c28fbu32 ^ 0x177a84cu32) == 0x4b0b80b7u32,
        xtime(0x94f851f6u64) == 0x29f0a361u64,
        (0x7e7b71u64 >> 1u64) == 0x3f3db8u64,
        (0x7e7b71u64 & 1u64 != 0) == true,
        (0x94f851f6u64 as u32) == 0x94f851f6u32,
        (0x94f851f6u32 ^ 0x958ff9bau32) == 0x177a84cu32,
        xtime(0x29f0a361u64) == 0x53e146c2u64,
        (0x3f3db8u64 >> 1u64) == 0x1f9edcu64,
        (0x3f3db8u64 & 1u64 != 0) == false,
        (0x0u32 ^ 0x958ff9bau32) == 0x958ff9bau32,
        xtime(0x53e146c2u64) == 0xa7c28d84u64,
        (0x1f9edcu64 >> 1u64) == 0xfcf6eu64,
        (0x1f9edcu64 & 1u64 != 0) == false,
        (0x0u32 ^ 0x958ff9bau32) == 0x958ff9bau32,
        xtime(0xa7c28d84u64) == 0x4f851b85u64,
        (0xfcf6eu64 >> 1u64) == 0x7e7b7u64,
        (0xfcf6eu64 & 1u64 != 0) == false,
        (0x0u32 ^ 0x958ff9bau32) == 0x958ff9bau32,
        xtime(0x4f851b85u64) == 0x9f0a370au64,
        (0x7e7b7u64 >> 1u64) == 0x3f3dbu64,
        (0x7e7b7u64 & 1u64 != 0) == true,
        (0x4f851b85u64 as u32) == 0x4f851b85u32,
        (0x4f851b85u32 ^ 0xda0ae23fu32) == 0x958ff9bau32,
        xtime(0x9f0a370au64) == 0x3e146e99u64,
        (0x3f3dbu64 >> 1u64) == 0x1f9edu64,
        (0x3f3dbu64 & 1u64 != 0) == true,
        (0x9f0a370au64 as u32) == 0x9f0a370au32,
        (0x9f0a370au32 ^ 0x4500d535u32) == 0xda0ae23fu32,
        xtime(0x3e146e99u64) == 0x7c28dd32u64,
        (0x1f9edu64 >> 1u64) == 0xfcf6u64,
        (0x1f9edu64 & 1u64 != 0) == true,
        (0x3e146e99u64 as u32) == 0x3e146e99u32,
        (0x3e146e99u32 ^ 0x7b14bbacu32) == 0x4500d535u32,
        xtime(0x7c28dd32u64) == 0xf851ba64u64,
        (0xfcf6u64 >> 1u64) == 0x7e7bu64,
        (0xfcf6u64 & 1u64 != 0) == false,
        (0x0u32 ^ 0x7b14bbacu32) == 0x7b14bbacu32,
        xtime(0xf851ba64u64) == 0xf0a37445u64,
        (0x7e7bu64 >> 1u64) == 0x3f3du64,
        (0x7e7bu64 & 1u64 != 0) == true,
        (0xf851ba64u64 as u32) == 0xf851ba64u32,
        (0xf851ba64u32 ^ 0x834501c8u32) == 0x7b14bbacu32,
        xtime(0xf0a37445u64) == 0xe146e807u64,
        (0x3f3du64 >> 1u64) == 0x1f9eu64,
        (0x3f3du64 & 1u64 != 0) == true,
        (0xf0a37445u64 as u32) == 0xf0a37445u32,
        (0xf0a37445u32 ^ 0x73e6758du32) == 0x834501c8u32,
        xtime(0xe146e807u64) == 0xc28dd083u64,
        (0x1f9eu64 >> 1u64) == 0xfcfu64,
        (0x1f9eu64 & 1u64 != 0) == false,
        (0x0u32 ^ 0x73e6758du32) == 0x73e6758du32,
        xtime(0xc28dd083u64) == 0x851ba18bu64,
        (0xfcfu64 >> 1u64) == 0x7e7u64,
        (0xfcfu64 & 1u64 != 0) == true,
        (0xc28dd083u64 as u32) == 0xc28dd083u32,
        (0xc28dd083u32 ^ 0xb16ba50eu32) == 0x73e6758du32,
        xtime(0x851ba18bu64) == 0xa37439bu64,
        (0x7e7u64 >> 1u64) == 0x3f3u64,
        (0x7e7u64 & 1u64 != 0) == true,
        (0x851ba18bu64 as u32) == 0x851ba18bu32,
        (0x851ba18bu32 ^ 0x34700485u32) == 0xb16ba50eu32,
        xtime(0xa37439bu64) == 0x146e8736u64,
        (0x3f3u64 >> 1u64) == 0x1f9u64,
        (0x3f3u64 & 1u64 != 0) == true,
        (0xa37439bu64 as u32) == 0xa37439bu32,
        (0xa37439bu32 ^ 0x3e47471eu32) == 0x34700485u32,
        xtime(0x146e8736u64) == 0x28dd0e6cu64,
        (0x1f9u64 >> 1u64) == 0xfcu64,
        (0x1f9u64 & 1u64 != 0) == true,
        (0x146e8736u64 as u32) == 0x146e8736u32,
        (0x146e8736u32 ^ 0x2a29c028u32) == 0x3e47471eu32,
        xtime(0x28dd0e6cu64) == 0x51ba1cd8u64,
        (0xfcu64 >> 1u64) == 0x7eu64,
        (0xfcu64 & 1u64 != 0) == false,
        (0x0u32 ^ 0x2a29c028u32) == 0x2a29c028u32,
        xtime(0x51ba1cd8u64) == 0xa37439b0u64,
        (0x7eu64 >> 1u64) == 0x3fu64,
        (0x7eu64 & 1u64 != 0) == false,
        (0x0u32 ^ 0x2a29c028u32) == 0x2a29c028u32,
        xtime(0xa37439b0u64) == 0x46e873edu64,
        (0x3fu64 >> 1u64) == 0x1fu64,
        (0x3fu64 & 1u64 != 0) == true,
        (0xa37439b0u64 as u32) == 0xa37439b0u32,
        (0xa37439b0u32 ^ 0x895df998u32) == 0x2a29c028u32,
        xtime(0x46e873edu64) == 0x8dd0e7dau64,
        (0x1fu64 >> 1u64) == 0xfu64,
        (0x1fu64 & 1u64 != 0) == true,
        (0x46e873edu64 as u32) == 0x46e873edu32,
        (0x46e873edu32 ^ 0xcfb58a75u32) == 0x895df998u32,
        xtime(0x8dd0e7dau64) == 0x1ba1cf39u64,
        (0xfu64 >> 1u64) == 0x7u64,
        (0xfu64 & 1u64 != 0) == true,
        (0x8dd0e7dau64 as u32) == 0x8dd0e7dau32,
        (0x8dd0e7dau32 ^ 0x42656dafu32) == 0xcfb58a75u32,
        xtime(0x1ba1cf39u64) == 0x37439e72u64,
        (0x7u64 >> 1u64) == 0x3u64,
        (0x7u64 & 1u64 != 0) == true,
        (0x1ba1cf39u64 as u32) == 0x1ba1cf39u32,
        (0x1ba1cf39u32 ^ 0x59c4a296u32) == 0x42656dafu32,
        xtime(0x37439e72u64) == 0x6e873ce4u64,
        (0x3u64 >> 1u64) == 0x1u64,
        (0x3u64 & 1u64 != 0) == true,
        (0x37439e72u64 as u32) == 0x37439e72u32,
        (0x37439e72u32 ^ 0x6e873ce4u32) == 0x59c4a296u32,
        xtime(0x6e873ce4u64) == 0xdd0e79c8u64,
        (0x1u64 >> 1u64) == 0x0u64,
        (0x1u64 & 1u64 != 0) == true,
        (0x6e873ce4u64 as u32) == 0x6e873ce4u32,
        (0x6e873ce4u32 ^ 0x0u32) == 0x6e873ce4u32,
{
}

/// 0x7f4a7c15 times 0xfcf6e3ac is 1 in the field.
proof fn lemma_inverse_high()
    ensures
        field_mul(0x7f4a7c15u32, 0xfcf6e3acu32) == 1,
{
    lemma_steps_high();
    assert(mul_steps(0xdd0e79c8u64, 0x0u64, 0) == 0u32);
    assert(mul_steps(0x6e873ce4u64, 0x1u64, 1) == 0x6e873ce4u32);
    assert(mul_steps(0x37439e72u64, 0x3u64, 2) == 0x59c4a296u32);
    assert(mul_steps(0x1ba1cf39u64, 0x7u64, 3) == 0x42656dafu32);
    assert(mul_steps(0x8dd0e7dau64, 0xfu64, 4) == 0xcfb58a75u32);
    assert(mul_steps(0x46e873edu64, 0x1fu64, 5) == 0x895df998u32);
    assert(mul_steps(0xa37439b0u64, 0x3fu64, 6) == 0x2a29c028u32);
    assert(mul_steps(0x51ba1cd8u64, 0x7eu64, 7) == 0x2a29c028u32);
    assert(mul_steps(0x28dd0e6cu64, 0xfcu64, 8) == 0x2a29c028u32);
    assert(mul_steps(0x146e8736u64, 0x1f9u64, 9) == 0x3e47471eu32);
    assert(mul_steps(0xa37439bu64, 0x3f3u64, 10) == 0x34700485u32);
    assert(mul_steps(0x851ba18bu64, 0x7e7u64, 11) == 0xb16ba50eu32);
    assert(mul_steps(0xc28dd083u64, 0xfcfu64, 12) == 0x73e6758du32);
    assert(mul_steps(0xe146e807u64, 0x1f9eu64, 13) == 0x73e6758du32);
    assert(mul_steps(0xf0a37445u64, 0x3f3du64, 14) == 0x834501c8u32);
    assert(mul_steps(0xf851ba64u64, 0x7e7bu64, 15) == 0x7b14bbacu32);
    assert(mul_steps(0x7c28dd32u64, 0xfcf6u64, 16) == 0x7b14bbacu32);
    assert(mul_steps(0x3e146e99u64, 0x1f9edu64, 17) == 0x4500d535u32);
    assert(mul_steps(0x9f0a370au64, 0x3f3dbu64, 18) == 0xda0ae23fu32);
    assert(mul_steps(0x4f851b85u64, 0x7e7b7u64, 19) == 0x958ff9bau32);
    assert(mul_steps(0xa7c28d84u64, 0xfcf6eu64, 20) == 0x958ff9bau32);
    assert(mul_steps(0x53e146c2u64, 0x1f9edcu64, 21) == 0x958ff9bau32);
    assert(mul_steps(0x29f0a361u64, 0x3f3db8u64, 22) == 0x958ff9bau32);
    assert(mul_steps(0x94f851f6u64, 0x7e7b71u64, 23) == 0x177a84cu32);
    assert(mul_steps(0x4a7c28fbu64, 0xfcf6e3u64, 24) == 0x4b0b80b7u32);
    assert(mul_steps(0xa53e143bu64, 0x1f9edc7u64, 25) == 0xee35948cu32);
    assert(mul_steps(0xd29f0a5bu64, 0x3f3db8eu64, 26) == 0xee35948cu32);
    assert(mul_steps(0xe94f856bu64, 0x7e7b71du64, 27) == 0x77a11e7u32);
    assert(mul_steps(0xf4a7c2f3u64, 0xfcf6e3au64, 28) == 0x77a11e7u32);
    assert(mul_steps(0xfa53e13fu64, 0x1f9edc75u64, 29) == 0xfd29f0d8u32);
    assert(mul_steps(0xfd29f0d9u64, 0x3f3db8ebu64, 30) == 0x1u32);
    assert(mul_steps(0xfe94f82au64, 0x7e7b71d6u64, 31) == 0x1u32);
    assert(mul_steps(0x7f4a7c15u64, 0xfcf6e3acu64, 32) == 0x1u32);
    assert((0x7f4a7c15u32 as u64) == 0x7f4a7c15u64 && (0xfcf6e3acu32 as u64) == 0xfcf6e3acu64);
}

proof fn lemma_steps_low()
    by (bit_vector)
    ensures
        xtime(0x9e3779b9u64) == 0x3c6ef3ffu64,
        (0xa98db6d2u64 >> 1u64) == 0x54c6db69u64,
        (0xa98db6d2u64 & 1u64 != 0) == false,
        (0x0u32 ^ 0x1u32) == 0x1u32,
        xtime(0x3c6ef3ffu64) == 0x78dde7feu64,
        (0x54c6db69u64 >> 1u64) == 0x2a636db4u64,
        (0x54c6db69u64 & 1u64 != 0) == true,
        (0x3c6ef3ffu64 as u32) == 0x3c6ef3ffu32,
        (0x3c6ef3ffu32 ^ 0x3c6ef3feu32) == 0x1u32,
        xtime(0x78dde7feu64) == 0xf1bbcffcu64,
        (0x2a636db4u64 >> 1u64) == 0x1531b6dau64,
        (0x2a636db4u64 & 1u64 != 0) == false,
        (0x0u32 ^ 0x3c6ef3feu32) == 0x3c6ef3feu32,
        xtime(0xf1bbcffcu64) == 0xe3779f75u64,
        (0x1531b6dau64 >> 1u64) == 0xa98db6du64,
        (0x1531b6dau64 & 1u64 != 0) == false,
        (0x0u32 ^ 0x3c6ef3feu32) == 0x3c6ef3feu32,
        xtime(0xe3779f75u64) == 0xc6ef3e67u64,
        (0xa98db6du64 >> 1u64) == 0x54c6db6u64,
        (0xa98db6du64 & 1u64 != 0) == true,
        (0xe3779f75u64 as u32) == 0xe3779f75u32,
        (0xe3779f75u32 ^ 0xdf196c8bu32) == 0x3c6ef3feu32,
        xtime(0xc6ef3e67u64) == 0x8dde7c43u64,
        (0x54c6db6u64 >> 1u64) == 0x2a636dbu64,
        (0x54c6db6u64 & 1u64 != 0) == false,
        (0x0u32 ^ 0xdf196c8bu32) == 0xdf196c8bu32,
        xtime(0x8dde7c43u64) == 0x1bbcf80bu64,
        (0x2a636dbu64 >> 1u64) == 0x1531b6du64,
        (0x2a636dbu64 & 1u64 != 0) == true,
        (0x8dde7c43u64 as u32) == 0x8dde7c43u32,
        (0x8dde7c43u32 ^ 0x52c710c8u32) == 0xdf196c8bu32,
        xtime(0x1bbcf80bu64) == 0x3779f016u64,
        (0x1531b6du64 >> 1u64) == 0xa98db6u64,
        (0x1531b6du64 & 1u64 != 0) == true,
        (0x1bbcf80bu64 as u32) == 0x1bbcf80bu32,
        (0x1bbcf80bu32 ^ 0x497be8c3u32) == 0x52c710c8u32,
        xtime(0x3779f016u64) == 0x6ef3e02cu64,
        (0xa98db6u64 >> 1u64) == 0x54c6dbu64,
        (0xa98db6u64 & 1u64 != 0) == false,
        (0x0u32 ^ 0x497be8c3u32) == 0x497be8c3u32,
        xtime(0x6ef3e02cu64) == 0xdde7c058u64,
        (0x54c6dbu64 >> 1u64) == 0x2a636du64,
        (0x54c6dbu64 & 1u64 != 0) == true,
        (0x6ef3e02cu64 as u32) == 0x6ef3e02cu32,
        (0x6ef3e02cu32 ^ 0x278808efu32) == 0x497be8c3u32,
        xtime(0xdde7c058u64) == 0xbbcf803du64,
        (0x2a636du64 >> 1u64) == 0x1531b6u64,
        (0x2a636du64 & 1u64 != 0) == true,
        (0xdde7c058u64 as u32) == 0xdde7c058u32,
        (0xdde7c058u32 ^ 0xfa6fc8b7u32) == 0x278808efu32,
        xtime(0xbbcf803du64) == 0x779f00f7u64,
        (0x1531b6u64 >> 1u64) == 0xa98dbu64,
        (0x1531b6u64 & 1u64 != 0) == false,
        (0x0u32 ^ 0xfa6fc8b7u32) == 0xfa6fc8b7u32,
        xtime(0x779f00f7u64) == 0xef3e01eeu64,
        (0xa98dbu64 >> 1u64) == 0x54c6du64,
        (0xa98dbu64 & 1u64 != 0) == true,
        (0x779f00f7u64 as u32) == 0x779f00f7u32,
        (0x779f00f7u32 ^ 0x8df0c840u32) == 0xfa6fc8b7u32,
        xtime(0xef3e01eeu64) == 0xde7c0351u64,
        (0x54c6du64 >> 1u64) == 0x2a636u64,
        (0x54c6du64 & 1u64 != 0) == true,
        (0xef3e01eeu64 as u32) == 0xef3e01eeu32,
        (0xef3e01eeu32 ^ 0x62cec9aeu32) == 0x8df0c840u32,
        xtime(0xde7c0351u64) == 0xbcf8062fu64,
        (0x2a636u64 >> 1u64) == 0x1531bu64,
        (0x2a636u64 & 1u64 != 0) == false,
        (0x0u32 ^ 0x62cec9aeu32) == 0x62cec9aeu32,
        xtime(0xbcf8062fu64) == 0x79f00cd3u64,
        (0x1531bu64 >> 1u64) == 0xa98du64,
        (0x1531bu64 & 1u64 != 0) == true,
        (0xbcf8062fu64 as u32) == 0xbcf8062fu32,
        (0xbcf8062fu32 ^ 0xde36cf81u32) == 0x62cec9aeu32,
        xtime(0x79f00cd3u64) == 0xf3e019a6u64,
        (0xa98du64 >> 1u64) == 0x54c6u64,
        (0xa98du64 & 1u64 != 0) == true,
        (0x79f00cd3u64 as u32) == 0x79f00cd3u32,
        (0x79f00cd3u32 ^ 0xa7c6c352u32) == 0xde36cf81u32,
        xtime(0xf3e019a6u64) == 0xe7c033c1u64,
        (0x54c6u64 >> 1u64) == 0x2a63u64,
        (0x54c6u64 & 1u64 != 0) == false,
        (0x0u32 ^ 0xa7c6c352u32) == 0xa7c6c352u32,
        xtime(0xe7c033c1u64) == 0xcf80670fu64,
        (0x2a63u64 >> 1u64) == 0x1531u64,
        (0x2a63u64 & 1u64 != 0) == true,
        (0xe7c033c1u64 as u32) == 0xe7c033c1u32,
        (0xe7c033c1u32 ^ 0x4006f093u32) == 0xa7c6c352u32,
        xtime(0xcf80670fu64) == 0x9f00ce93u64,
        (0x1531u64 >> 1u64) == 0xa98u64,
        (0x1531u64 & 1u64 != 0) == true,
        (0xcf80670fu64 as u32) == 0xcf80670fu32,
        (0xcf80670fu32 ^ 0x8f86979cu32) == 0x4006f093u32,
        xtime(0x9f00ce93u64) == 0x3e019dabu64,
        (0xa98u64 >> 1u64) == 0x54cu64,
        (0xa98u64 & 1u64 != 0) == false,
        (0x0u32 ^ 0x8f86979cu32) == 0x8f86979cu32,
        xtime(0x3e019dabu64) == 0x7c033b56u64,
        (0x54cu64 >> 1u64) == 0x2a6u64,
        (0x54cu64 & 1u64 != 0) == false,
        (0x0u32 ^ 0x8f86979cu32) == 0x8f86979cu32,
        xtime(0x7c033b56u64) == 0xf80676acu64,
        (0x2a6u64 >> 1u64) == 0x153u64,
        (0x2a6u64 & 1u64 != 0) == false,
        (0x0u32 ^ 0x8f86979cu32) == 0x8f86979cu32,
        xtime(0xf80676acu64) == 0xf00cedd5u64,
        (0x153u64 >> 1u64) == 0xa9u64,
        (0x153u64 & 1u64 != 0) == true,
        (0xf80676acu64 as u32) == 0xf80676acu32,
        (0xf80676acu32 ^ 0x7780e130u32) == 0x8f86979cu32,
        xtime(0xf00cedd5u64) == 0xe019db27u64,
        (0xa9u64 >> 1u64) == 0x54u64,
        (0xa9u64 & 1u64 != 0) == true,
        (0xf00cedd5u64 as u32) == 0xf00cedd5u32,
        (0xf00cedd5u32 ^ 0x878c0ce5u32) == 0x7780e130u32,
        xtime(0xe019db27u64) == 0xc033b6c3u64,
        (0x54u64 >> 1u64) == 0x2au64,
        (0x54u64 & 1u64 != 0) == false,
        (0x0u32 ^ 0x878c0ce5u32) == 0x878c0ce5u32,
        xtime(0xc033b6c3u64) == 0x80676d0bu64,
        (0x2au64 >> 1u64) == 0x15u64,
        (0x2au64 & 1u64 != 0) == false,
        (0x0u32 ^ 0x878c0ce5u32) == 0x878c0ce5u32,
        xtime(0x80676d0bu64) == 0xceda9bu64,
        (0x15u64 >> 1u64) == 0xau64,
        (0x15u64 & 1u64 != 0) == true,
        (0x80676d0bu64 as u32) == 0x80676d0bu32,
        (0x80676d0bu32 ^ 0x7eb61eeu32) == 0x878c0ce5u32,
        xtime(0xceda9bu64) == 0x19db536u64,
        (0xau64 >> 1u64) == 0x5u64,
        (0xau64 & 1u64 != 0) == false,
        (0x0u32 ^ 0x7eb61eeu32) == 0x7eb61eeu32,
        xtime(0x19db536u64) == 0x33b6a6cu64,
        (0x5u64 >> 1u64) == 0x2u64,
        (0x5u64 & 1u64 != 0) == true,
        (0x19db536u64 as u32) == 0x19db536u32,
        (0x19db536u32 ^ 0x676d4d8u32) == 0x7eb61eeu32,
        xtime(0x33b6a6cu64) == 0x676d4d8u64,
        (0x2u64 >> 1u64) == 0x1u64,
        (0x2u64 & 1u64 != 0) == false,
        (0x0u32 ^ 0x676d4d8u32) == 0x676d4d8u32,
        xtime(0x676d4d8u64) == 0xceda9b0u64,
        (0x1u64 >> 1u64) == 0x0u64,
        (0x1u64 & 1u64 != 0) == true,
        (0x676d4d8u64 as u32) == 0x676d4d8u32,
        (0x676d4d8u32 ^ 0x0u32) == 0x676d4d8u32,
{
}

/// 0x9e3779b9 times 0xa98db6d2 is 1 in the field.
proof fn lemma_inverse_low()
    ensures
        field_mul(0x9e3779b9u32, 0xa98db6d2u32) == 1,
{
    lemma_steps_low();
    assert(mul_steps(0xceda9b0u64, 0x0u64, 0) == 0u32);
    assert(mul_steps(0x676d4d8u64, 0x1u64, 1) == 0x676d4d8u32);
    assert(mul_steps(0x33b6a6cu64, 0x2u64, 2) == 0x676d4d8u32);
    assert(mul_steps(0x19db536u64, 0x5u64, 3) == 0x7eb61eeu32);
    assert(mul_steps(0xceda9bu64, 0xau64, 4) == 0x7eb61eeu32);
    assert(mul_steps(0x80676d0bu64, 0x15u64, 5) == 0x878c0ce5u32);
    assert(mul_steps(0xc033b6c3u64, 0x2au64, 6) == 0x878c0ce5u32);
    assert(mul_steps(0xe019db27u64, 0x54u64, 7) == 0x878c0ce5u32);
    assert(mul_steps(0xf00cedd5u64, 0xa9u64, 8) == 0x7780e130u32);
    assert(mul_steps(0xf80676acu64, 0x153u64, 9) == 0x8f86979cu32);
    assert(mul_steps(0x7c033b56u64, 0x2a6u64, 10) == 0x8f86979cu32);
    assert(mul_steps(0x3e019dabu64, 0x54cu64, 11) == 0x8f86979cu32);
    assert(mul_steps(0x9f00ce93u64, 0xa98u64, 12) == 0x8f86979cu32);
    assert(mul_steps(0xcf80670fu64, 0x1531u64, 13) == 0x4006f093u32);
    assert(mul_steps(0xe7c033c1u64, 0x2a63u64, 14) == 0xa7c6c352u32);
    assert(mul_steps(0xf3e019a6u64, 0x54c6u64, 15) == 0xa7c6c352u32);
    assert(mul_steps(0x79f00cd3u64, 0xa98du64, 16) == 0xde36cf81u32);
    assert(mul_steps(0xbcf8062fu64, 0x1531bu64, 17) == 0x62cec9aeu32);
    assert(mul_steps(0xde7c0351u64, 0x2a636u64, 18) == 0x62cec9aeu32);
    assert(mul_steps(0xef3e01eeu64, 0x54c6du64, 19) == 0x8df0c840u32);
    assert(mul_steps(0x779f00f7u64, 0xa98dbu64, 20) == 0xfa6fc8b7u32);
    assert(mul_steps(0xbbcf803du64, 0x1531b6u64, 21) == 0xfa6fc8b7u32);
    assert(mul_steps(0xdde7c058u64, 0x2a636du64, 22) == 0x278808efu32);
    assert(mul_steps(0x6ef3e02cu64, 0x54c6dbu64, 23) == 0x497be8c3u32);
    assert(mul_steps(0x3779f016u64, 0xa98db6u64, 24) == 0x497be8c3u32);
    assert(mul_steps(0x1bbcf80bu64, 0x1531b6du64, 25) == 0x52c710c8u32);
    assert(mul_steps(0x8dde7c43u64, 0x2a636dbu64, 26) == 0xdf196c8bu32);
    assert(mul_steps(0xc6ef3e67u64, 0x54c6db6u64, 27) == 0xdf196c8bu32);
    assert(mul_steps(0xe3779f75u64, 0xa98db6du64, 28) == 0x3c6ef3feu32);
    assert(mul_steps(0xf1bbcffcu64, 0x1531b6dau64, 29) == 0x3c6ef3feu32);
    assert(mul_steps(0x78dde7feu64, 0x2a636db4u64, 30) == 0x3c6ef3feu32);
    assert(mul_steps(0x3c6ef3ffu64, 0x54c6db69u64, 31) == 0x1u32);
    assert(mul_steps(0x9e3779b9u64, 0xa98db6d2u64, 32) == 0x1u32);
    assert((0x9e3779b9u32 as u64) == 0x9e3779b9u64 && (0xa98db6d2u32 as u64) == 0xa98db6d2u64);
}

proof fn lemma_times_invertible(x: u32, y: u32, c: u32, ci: u32)
    requires
        field_mul(c, ci) == 1,
        field_mul(x, c) == field_mul(y, c),
    ensures
        x == y,
{
    law_field_mul_is_gf_mul(x, c);
    law_field_mul_is_gf_mul(y, c);
    law_field_mul_is_gf_mul(c, ci);
    crate::gf32::law_gf_mul_associative(x, c, ci);
    crate::gf32::law_gf_mul_associative(y, c, ci);
    crate::gf32::law_gf_mul_identities(x);
    crate::gf32::law_gf_mul_identities(y);
}

proof fn lemma_bv_address(a1: u64, a2: u64, h1: u32, h2: u32, l1: u32, l2: u32)
    by (bit_vector)
    ensures
        (((h1 as u64) << 32u64) | (l1 as u64)) == (((h2 as u64) << 32u64) | (l2 as u64)) ==> h1 == h2 && l1 == l2,
        ((a1 >> 32u64) as u32 == (a2 >> 32u64) as u32 && a1 as u32 == a2 as u32) ==> a1 == a2,
{
}

/// Scrambling loses no address: two different addresses scramble to different values
/// (each half is multiplied by an invertible field element).
pub proof fn law_encrypt_address_injective(a1: u64, a2: u64)
    requires
        encrypted_address(a1) == encrypted_address(a2),
    ensures
        a1 == a2,
{
    let h1 = (a1 >> 32u64) as u32;
    let h2 = (a2 >> 32u64) as u32;
    let l1 = a1 as u32;
    let l2 = a2 as u32;
    lemma_bv_address(a1, a2, field_mul(h1, 0x7f4a7c15u32), field_mul(h2, 0x7f4a7c15u32), field_mul(l1, 0x9e3779b9u32), field_mul(l2, 0x9e3779b9u32));
    lemma_inverse_high();
    lemma_inverse_low();
    lemma_times_invertible(h1, h2, 0x7f4a7c15u32, 0xfcf6e3acu32);
    lemma_times_invertible(l1, l2, 0x9e3779b9u32, 0xa98db6d2u32);
    lemma_bv_address(a1, a2, h1, h2, l1, l2);
}

} // verus!
