//! Morton (Z-order) encoding: interleaving the bits of 2 or 3 coordinates.
use vstd::prelude::*;
use crate::bits::{bit_u32, bit_u64, lemma_bits_eq_u32, lemma_bits_eq_u64};

verus! {

/// `m` interleaves x and y: bit 2i of m is bit i of x, bit 2i+1 is bit i of y.
pub open spec fn interleaves_2d(m: u64, x: u32, y: u32) -> bool {
    forall|i: u64|
        i < 32 ==> #[trigger] bit_u64(m, (2 * i) as u64) == bit_u32(x, i as u32) as u64
            && bit_u64(m, (2 * i + 1) as u64) == bit_u32(y, i as u32) as u64
}

/// Bits 3i, 3i+1, 3i+2 of `m` are bit i of x, y and z, for i < 21.
pub open spec fn interleaves_3d(m: u64, x: u32, y: u32, z: u32) -> bool {
    forall|i: u64|
        i < 21 ==> {
            &&& #[trigger] bit_u64(m, (3 * i) as u64) == bit_u32(x, i as u32) as u64
            &&& bit_u64(m, (3 * i + 1) as u64) == bit_u32(y, i as u32) as u64
            &&& bit_u64(m, (3 * i + 2) as u64) == bit_u32(z, i as u32) as u64
        }
}

proof fn lemma_set_bit_u64(r: u64, b: u64, k: u64, j: u64)
    requires
        b <= 1,
        k < 64,
        j < 64,
        r >> k == 0,
    ensures
        bit_u64(r | (b << k), j) == if j == k {
            b
        } else {
            bit_u64(r, j)
        },
        k < 63 ==> (r | (b << k)) >> (k + 1) == 0,
{
    assert(((r | (b << k)) >> j) & 1 == if j == k {
        b
    } else {
        (r >> j) & 1
    }) by (bit_vector)
        requires
            b <= 1,
            k < 64,
            j < 64,
            r >> k == 0,
    ;
    assert(k < 63 ==> (r | (b << k)) >> (k + 1) == 0) by (bit_vector)
        requires
            b <= 1,
            k < 64,
            r >> k == 0,
    ;
}

proof fn lemma_set_bit_u32(r: u32, b: u32, k: u32, j: u32)
    requires
        b <= 1,
        k < 32,
        j < 32,
        r >> k == 0,
    ensures
        bit_u32(r | (b << k), j) == if j == k {
            b
        } else {
            bit_u32(r, j)
        },
        k < 31 ==> (r | (b << k)) >> (k + 1) == 0,
{
    assert(((r | (b << k)) >> j) & 1 == if j == k {
        b
    } else {
        (r >> j) & 1
    }) by (bit_vector)
        requires
            b <= 1,
            k < 32,
            j < 32,
            r >> k == 0,
    ;
    assert(k < 31 ==> (r | (b << k)) >> (k + 1) == 0) by (bit_vector)
        requires
            b <= 1,
            k < 32,
            r >> k == 0,
    ;
}

proof fn lemma_bit_facts(x: u32, i: u32, m: u64, k: u64)
    requires
        i < 32,
        k < 64,
    ensures
        bit_u32(x, i) <= 1,
        bit_u64(m, k) <= 1,
        (0u32 >> i) == 0,
        (0u64 >> k) == 0,
{
    assert((x >> i) & 1 <= 1 && (m >> k) & 1 <= 1 && 0u32 >> i == 0 && 0u64 >> k == 0) by (bit_vector);
}

/// Morton encoding utilities for Z-order curve mapping
pub struct MortonEncoding;

impl MortonEncoding {
    /// Encode 2D coordinates to Morton order (Z-order curve)
    pub fn encode_2d(x: u32, y: u32) -> (r: u64)
        ensures
            interleaves_2d(r, x, y),
    {
        let mut result = 0u64;
        let mut i: u32 = 0;
        proof {
            lemma_bit_facts(x, 0, 0, 0);
        }
        while i < 32
            invariant
                i <= 32,
                i < 32 ==> result >> (2 * i as u64) == 0,
                forall|k: u64|
                    k < i ==> #[trigger] bit_u64(result, (2 * k) as u64) == bit_u32(x, k as u32) as u64
                        && bit_u64(result, (2 * k + 1) as u64) == bit_u32(y, k as u32) as u64,
            decreases 32 - i,
        {
            let x_bit = (x >> i) & 1;
            let y_bit = (y >> i) & 1;
            proof {
                lemma_bit_facts(x, i, 0, 0);
                lemma_bit_facts(y, i, 0, 0);
            }
            let ghost r0 = result;
            let k0: u64 = 2 * i as u64;
            result |= (x_bit as u64) << k0;
            let ghost r1 = result;
            result |= (y_bit as u64) << (k0 + 1);
            proof {
                lemma_set_bit_u64(r0, x_bit as u64, (k0) as u64, (0) as u64);
                lemma_set_bit_u64(r1, y_bit as u64, (k0 + 1) as u64, (0) as u64);
                assert forall|k: u64| k < i + 1 implies #[trigger] bit_u64(result, (2 * k) as u64) == bit_u32(
                    x,
                    k as u32,
                ) as u64 && bit_u64(result, (2 * k + 1) as u64) == bit_u32(y, k as u32) as u64 by {
                    lemma_set_bit_u64(r0, x_bit as u64, (k0) as u64, (2 * k) as u64);
                    lemma_set_bit_u64(r0, x_bit as u64, (k0) as u64, (2 * k + 1) as u64);
                    lemma_set_bit_u64(r1, y_bit as u64, (k0 + 1) as u64, (2 * k) as u64);
                    lemma_set_bit_u64(r1, y_bit as u64, (k0 + 1) as u64, (2 * k + 1) as u64);
                }
            }
            i += 1;
        }
        result
    }

    /// Encode 3D coordinates to Morton order
    pub fn encode_3d(x: u32, y: u32, z: u32) -> (r: u64)
        ensures
            interleaves_3d(r, x, y, z),
            r >> 63 == 0,
    {
        let mut result = 0u64;
        let mut i: u32 = 0;
        proof {
            lemma_bit_facts(x, 0, 0, 0);
        }
        while i < 21
            invariant
                i <= 21,
                result >> (3 * i as u64) == 0,
                forall|k: u64|
                    k < i ==> {
                        &&& #[trigger] bit_u64(result, (3 * k) as u64) == bit_u32(x, k as u32) as u64
                        &&& bit_u64(result, (3 * k + 1) as u64) == bit_u32(y, k as u32) as u64
                        &&& bit_u64(result, (3 * k + 2) as u64) == bit_u32(z, k as u32) as u64
                    },
            decreases 21 - i,
        {
            let x_bit = (x >> i) & 1;
            let y_bit = (y >> i) & 1;
            let z_bit = (z >> i) & 1;
            proof {
                lemma_bit_facts(x, i, 0, 0);
                lemma_bit_facts(y, i, 0, 0);
                lemma_bit_facts(z, i, 0, 0);
            }
            let ghost r0 = result;
            let k0: u64 = 3 * i as u64;
            result |= (x_bit as u64) << k0;
            let ghost r1 = result;
            result |= (y_bit as u64) << (k0 + 1);
            let ghost r2 = result;
            result |= (z_bit as u64) << (k0 + 2);
            proof {
                lemma_set_bit_u64(r0, x_bit as u64, (k0) as u64, (0) as u64);
                lemma_set_bit_u64(r1, y_bit as u64, (k0 + 1) as u64, (0) as u64);
                lemma_set_bit_u64(r2, z_bit as u64, (k0 + 2) as u64, (0) as u64);
                assert forall|k: u64| k < i + 1 implies {
                    &&& #[trigger] bit_u64(result, (3 * k) as u64) == bit_u32(x, k as u32) as u64
                    &&& bit_u64(result, (3 * k + 1) as u64) == bit_u32(y, k as u32) as u64
                    &&& bit_u64(result, (3 * k + 2) as u64) == bit_u32(z, k as u32) as u64
                } by {
                    lemma_set_bit_u64(r0, x_bit as u64, (k0) as u64, (3 * k) as u64);
                    lemma_set_bit_u64(r0, x_bit as u64, (k0) as u64, (3 * k + 1) as u64);
                    lemma_set_bit_u64(r0, x_bit as u64, (k0) as u64, (3 * k + 2) as u64);
                    lemma_set_bit_u64(r1, y_bit as u64, (k0 + 1) as u64, (3 * k) as u64);
                    lemma_set_bit_u64(r1, y_bit as u64, (k0 + 1) as u64, (3 * k + 1) as u64);
                    lemma_set_bit_u64(r1, y_bit as u64, (k0 + 1) as u64, (3 * k + 2) as u64);
                    lemma_set_bit_u64(r2, z_bit as u64, (k0 + 2) as u64, (3 * k) as u64);
                    lemma_set_bit_u64(r2, z_bit as u64, (k0 + 2) as u64, (3 * k + 1) as u64);
                    lemma_set_bit_u64(r2, z_bit as u64, (k0 + 2) as u64, (3 * k + 2) as u64);
                }
            }
            i += 1;
        }
        result
    }

    /// Decode Morton order to 2D coordinates
    pub fn decode_2d(morton: u64) -> (r: (u32, u32))
        ensures
            interleaves_2d(morton, r.0, r.1),
    {
        let mut x = 0u32;
        let mut y = 0u32;
        let mut i: u32 = 0;
        proof {
            lemma_bit_facts(0, 0, morton, 0);
        }
        while i < 32
            invariant
                i <= 32,
                i < 32 ==> x >> i == 0,
                i < 32 ==> y >> i == 0,
                forall|k: u64|
                    k < i ==> #[trigger] bit_u64(morton, (2 * k) as u64) == bit_u32(x, k as u32) as u64
                        && bit_u64(morton, (2 * k + 1) as u64) == bit_u32(y, k as u32) as u64,
            decreases 32 - i,
        {
            let x_bit = (morton >> (2 * i as u64)) & 1;
            let y_bit = (morton >> (2 * i as u64 + 1)) & 1;
            proof {
                lemma_bit_facts(0, i, morton, (2 * i as u64) as u64);
                lemma_bit_facts(0, i, morton, (2 * i as u64 + 1) as u64);
            }
            let ghost (x0, y0) = (x, y);
            x |= (x_bit as u32) << i;
            y |= (y_bit as u32) << i;
            proof {
                lemma_set_bit_u32(x0, x_bit as u32, i, 0);
                lemma_set_bit_u32(y0, y_bit as u32, i, 0);
                assert forall|k: u64| k < i + 1 implies #[trigger] bit_u64(morton, (2 * k) as u64) == bit_u32(
                    x,
                    k as u32,
                ) as u64 && bit_u64(morton, (2 * k + 1) as u64) == bit_u32(y, k as u32) as u64 by {
                    lemma_set_bit_u32(x0, x_bit as u32, i, k as u32);
                    lemma_set_bit_u32(y0, y_bit as u32, i, k as u32);
                }
            }
            i += 1;
        }
        (x, y)
    }

    /// Decode Morton order to 3D coordinates
    pub fn decode_3d(morton: u64) -> (r: (u32, u32, u32))
        ensures
            interleaves_3d(morton, r.0, r.1, r.2),
            r.0 >> 21 == 0,
            r.1 >> 21 == 0,
            r.2 >> 21 == 0,
    {
        let mut x = 0u32;
        let mut y = 0u32;
        let mut z = 0u32;
        let mut i: u32 = 0;
        proof {
            lemma_bit_facts(0, 0, morton, 0);
        }
        while i < 21
            invariant
                i <= 21,
                x >> i == 0,
                y >> i == 0,
                z >> i == 0,
                forall|k: u64|
                    k < i ==> {
                        &&& #[trigger] bit_u64(morton, (3 * k) as u64) == bit_u32(x, k as u32) as u64
                        &&& bit_u64(morton, (3 * k + 1) as u64) == bit_u32(y, k as u32) as u64
                        &&& bit_u64(morton, (3 * k + 2) as u64) == bit_u32(z, k as u32) as u64
                    },
            decreases 21 - i,
        {
            let x_bit = (morton >> (3 * i as u64)) & 1;
            let y_bit = (morton >> (3 * i as u64 + 1)) & 1;
            let z_bit = (morton >> (3 * i as u64 + 2)) & 1;
            proof {
                lemma_bit_facts(0, i, morton, (3 * i as u64) as u64);
                lemma_bit_facts(0, i, morton, (3 * i as u64 + 1) as u64);
                lemma_bit_facts(0, i, morton, (3 * i as u64 + 2) as u64);
            }
            let ghost (x0, y0, z0) = (x, y, z);
            x |= (x_bit as u32) << i;
            y |= (y_bit as u32) << i;
            z |= (z_bit as u32) << i;
            proof {
                lemma_set_bit_u32(x0, x_bit as u32, i, 0);
                lemma_set_bit_u32(y0, y_bit as u32, i, 0);
                lemma_set_bit_u32(z0, z_bit as u32, i, 0);
                assert forall|k: u64| k < i + 1 implies {
                    &&& #[trigger] bit_u64(morton, (3 * k) as u64) == bit_u32(x, k as u32) as u64
                    &&& bit_u64(morton, (3 * k + 1) as u64) == bit_u32(y, k as u32) as u64
                    &&& bit_u64(morton, (3 * k + 2) as u64) == bit_u32(z, k as u32) as u64
                } by {
                    lemma_set_bit_u32(x0, x_bit as u32, i, k as u32);
                    lemma_set_bit_u32(y0, y_bit as u32, i, k as u32);
                    lemma_set_bit_u32(z0, z_bit as u32, i, k as u32);
                }
            }
            i += 1;
        }
        (x, y, z)
    }
}

proof fn lemma_mask21(x: u32, d: u32, j: u32)
    requires
        j < 32,
        d >> 21 == 0,
    ensures
        bit_u32(x & 0x1f_ffff, j) == if j < 21 {
            bit_u32(x, j)
        } else {
            0
        },
        j >= 21 ==> bit_u32(d, j) == 0,
{
    assert(((x & 0x1f_ffff) >> j) & 1 == if j < 21 {
        (x >> j) & 1
    } else {
        0
    }) by (bit_vector)
        requires
            j < 32,
    ;
    assert(j >= 21 ==> (d >> j) & 1 == 0) by (bit_vector)
        requires
            j < 32,
            d >> 21 == 0,
    ;
}

proof fn lemma_mask63(m: u64, e: u64, k: u64)
    requires
        k < 64,
        e >> 63 == 0,
    ensures
        bit_u64(m & 0x7fff_ffff_ffff_ffff, k) == if k < 63 {
            bit_u64(m, k)
        } else {
            0
        },
        k == 63 ==> bit_u64(e, k) == 0,
{
    assert(((m & 0x7fff_ffff_ffff_ffff) >> k) & 1 == if k < 63 {
        (m >> k) & 1
    } else {
        0
    }) by (bit_vector)
        requires
            k < 64,
    ;
    assert(k == 63 ==> (e >> k) & 1 == 0) by (bit_vector)
        requires
            e >> 63 == 0,
    ;
}

/// Decoding a 2D Morton code gives back the coordinates that were encoded:
/// two coordinate pairs interleaved into the same code are equal.
pub proof fn law_morton_2d_decode_encode(m: u64, x: u32, y: u32, dx: u32, dy: u32)
    requires
        interleaves_2d(m, x, y),
        interleaves_2d(m, dx, dy),
    ensures
        dx == x,
        dy == y,
{
    assert forall|j: u32| j < 32 implies #[trigger] bit_u32(dx, j) == bit_u32(x, j) by {
        assert(bit_u64(m, (2 * (j as u64)) as u64) == bit_u32(x, j) as u64);
    }
    assert forall|j: u32| j < 32 implies #[trigger] bit_u32(dy, j) == bit_u32(y, j) by {
        assert(bit_u64(m, (2 * (j as u64)) as u64) == bit_u32(x, j) as u64);
        assert(bit_u64(m, (2 * (j as u64) + 1) as u64) == bit_u32(y, j) as u64);
    }
    lemma_bits_eq_u32(dx, x);
    lemma_bits_eq_u32(dy, y);
}

/// Encoding the coordinates decoded from a 2D Morton code gives back the code:
/// a code is determined by the coordinates it interleaves.
pub proof fn law_morton_2d_encode_decode(m: u64, x: u32, y: u32, e: u64)
    requires
        interleaves_2d(m, x, y),
        interleaves_2d(e, x, y),
    ensures
        e == m,
{
    assert forall|k: u64| k < 64 implies #[trigger] bit_u64(e, k) == bit_u64(m, k) by {
        let i = k / 2;
        assert(bit_u64(m, (2 * i) as u64) == bit_u32(x, i as u32) as u64);
        assert(bit_u64(e, (2 * i) as u64) == bit_u32(x, i as u32) as u64);
        if k % 2 == 0 {
            assert(k == (2 * i) as u64);
        } else {
            assert(k == (2 * i + 1) as u64);
        }
    }
    lemma_bits_eq_u64(e, m);
}

/// Decoding a 3D Morton code gives back the low 21 bits of each encoded coordinate.
pub proof fn law_morton_3d_decode_encode(
    m: u64,
    x: u32,
    y: u32,
    z: u32,
    dx: u32,
    dy: u32,
    dz: u32,
)
    requires
        interleaves_3d(m, x, y, z),
        interleaves_3d(m, dx, dy, dz),
        dx >> 21 == 0,
        dy >> 21 == 0,
        dz >> 21 == 0,
    ensures
        dx == x & 0x1f_ffff,
        dy == y & 0x1f_ffff,
        dz == z & 0x1f_ffff,
{
    assert forall|j: u32| j < 32 implies #[trigger] bit_u32(dx, j) == bit_u32(x & 0x1f_ffff, j) by {
        lemma_mask21(x, dx, j);
        if j < 21 {
            assert(bit_u64(m, (3 * (j as u64) + 0) as u64) == bit_u32(x, j) as u64);
        }
    }
    assert forall|j: u32| j < 32 implies #[trigger] bit_u32(dy, j) == bit_u32(y & 0x1f_ffff, j) by {
        lemma_mask21(y, dy, j);
        if j < 21 {
            assert(bit_u64(m, (3 * (j as u64) + 0) as u64) == bit_u32(x, j) as u64);
            assert(bit_u64(m, (3 * (j as u64) + 1) as u64) == bit_u32(y, j) as u64);
        }
    }
    assert forall|j: u32| j < 32 implies #[trigger] bit_u32(dz, j) == bit_u32(z & 0x1f_ffff, j) by {
        lemma_mask21(z, dz, j);
        if j < 21 {
            assert(bit_u64(m, (3 * (j as u64) + 0) as u64) == bit_u32(x, j) as u64);
            assert(bit_u64(m, (3 * (j as u64) + 2) as u64) == bit_u32(z, j) as u64);
        }
    }
    lemma_bits_eq_u32(dx, x & 0x1f_ffff);
    lemma_bits_eq_u32(dy, y & 0x1f_ffff);
    lemma_bits_eq_u32(dz, z & 0x1f_ffff);
}

/// Encoding the coordinates decoded from a 3D Morton code gives back the code
/// without its top bit, which no coordinate bit reaches.
pub proof fn law_morton_3d_encode_decode(m: u64, x: u32, y: u32, z: u32, e: u64)
    requires
        interleaves_3d(m, x, y, z),
        interleaves_3d(e, x, y, z),
        e >> 63 == 0,
    ensures
        e == m & 0x7fff_ffff_ffff_ffff,
{
    assert forall|k: u64| k < 64 implies #[trigger] bit_u64(e, k) == bit_u64(m & 0x7fff_ffff_ffff_ffff, k) by {
        lemma_mask63(m, e, k);
        if k < 63 {
            let i = k / 3;
            assert(bit_u64(m, (3 * i) as u64) == bit_u32(x, i as u32) as u64);
            assert(bit_u64(e, (3 * i) as u64) == bit_u32(x, i as u32) as u64);
            if k % 3 == 0 {
                assert(k == (3 * i) as u64);
            } else if k % 3 == 1 {
                assert(k == (3 * i + 1) as u64);
            } else {
                assert(k == (3 * i + 2) as u64);
            }
        }
    }
    lemma_bits_eq_u64(e, m & 0x7fff_ffff_ffff_ffff);
}

} // verus!
