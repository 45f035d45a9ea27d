//! Bit-level facts shared by the bit-manipulating parts of the library.
use vstd::prelude::*;

verus! {

/// Bit j of a u32 (0 or 1).
pub open spec fn bit_u32(v: u32, j: u32) -> u32 {
    (v >> j) & 1
}

/// Bit j of a u64 (0 or 1).
pub open spec fn bit_u64(v: u64, j: u64) -> u64 {
    (v >> j) & 1
}

/// Two u32 values with the same 32 bits are equal.
pub proof fn lemma_bits_eq_u32(a: u32, b: u32)
    requires
        forall|j: u32| j < 32 ==> #[trigger] bit_u32(a, j) == bit_u32(b, j),
    ensures
        a == b,
{
    assert(bit_u32(a, 0) == bit_u32(b, 0));
    assert(bit_u32(a, 1) == bit_u32(b, 1));
    assert(bit_u32(a, 2) == bit_u32(b, 2));
    assert(bit_u32(a, 3) == bit_u32(b, 3));
    assert(bit_u32(a, 4) == bit_u32(b, 4));
    assert(bit_u32(a, 5) == bit_u32(b, 5));
    assert(bit_u32(a, 6) == bit_u32(b, 6));
    assert(bit_u32(a, 7) == bit_u32(b, 7));
    assert(bit_u32(a, 8) == bit_u32(b, 8));
    assert(bit_u32(a, 9) == bit_u32(b, 9));
    assert(bit_u32(a, 10) == bit_u32(b, 10));
    assert(bit_u32(a, 11) == bit_u32(b, 11));
    assert(bit_u32(a, 12) == bit_u32(b, 12));
    assert(bit_u32(a, 13) == bit_u32(b, 13));
    assert(bit_u32(a, 14) == bit_u32(b, 14));
    assert(bit_u32(a, 15) == bit_u32(b, 15));
    assert(bit_u32(a, 16) == bit_u32(b, 16));
    assert(bit_u32(a, 17) == bit_u32(b, 17));
    assert(bit_u32(a, 18) == bit_u32(b, 18));
    assert(bit_u32(a, 19) == bit_u32(b, 19));
    assert(bit_u32(a, 20) == bit_u32(b, 20));
    assert(bit_u32(a, 21) == bit_u32(b, 21));
    assert(bit_u32(a, 22) == bit_u32(b, 22));
    assert(bit_u32(a, 23) == bit_u32(b, 23));
    assert(bit_u32(a, 24) == bit_u32(b, 24));
    assert(bit_u32(a, 25) == bit_u32(b, 25));
    assert(bit_u32(a, 26) == bit_u32(b, 26));
    assert(bit_u32(a, 27) == bit_u32(b, 27));
    assert(bit_u32(a, 28) == bit_u32(b, 28));
    assert(bit_u32(a, 29) == bit_u32(b, 29));
    assert(bit_u32(a, 30) == bit_u32(b, 30));
    assert(bit_u32(a, 31) == bit_u32(b, 31));
    assert(a == b) by (bit_vector)
        requires
            (a >> 0u32) & 1 == (b >> 0u32) & 1,
            (a >> 1u32) & 1 == (b >> 1u32) & 1,
            (a >> 2u32) & 1 == (b >> 2u32) & 1,
            (a >> 3u32) & 1 == (b >> 3u32) & 1,
            (a >> 4u32) & 1 == (b >> 4u32) & 1,
            (a >> 5u32) & 1 == (b >> 5u32) & 1,
            (a >> 6u32) & 1 == (b >> 6u32) & 1,
            (a >> 7u32) & 1 == (b >> 7u32) & 1,
            (a >> 8u32) & 1 == (b >> 8u32) & 1,
            (a >> 9u32) & 1 == (b >> 9u32) & 1,
            (a >> 10u32) & 1 == (b >> 10u32) & 1,
            (a >> 11u32) & 1 == (b >> 11u32) & 1,
            (a >> 12u32) & 1 == (b >> 12u32) & 1,
            (a >> 13u32) & 1 == (b >> 13u32) & 1,
            (a >> 14u32) & 1 == (b >> 14u32) & 1,
            (a >> 15u32) & 1 == (b >> 15u32) & 1,
            (a >> 16u32) & 1 == (b >> 16u32) & 1,
            (a >> 17u32) & 1 == (b >> 17u32) & 1,
            (a >> 18u32) & 1 == (b >> 18u32) & 1,
            (a >> 19u32) & 1 == (b >> 19u32) & 1,
            (a >> 20u32) & 1 == (b >> 20u32) & 1,
            (a >> 21u32) & 1 == (b >> 21u32) & 1,
            (a >> 22u32) & 1 == (b >> 22u32) & 1,
            (a >> 23u32) & 1 == (b >> 23u32) & 1,
            (a >> 24u32) & 1 == (b >> 24u32) & 1,
            (a >> 25u32) & 1 == (b >> 25u32) & 1,
            (a >> 26u32) & 1 == (b >> 26u32) & 1,
            (a >> 27u32) & 1 == (b >> 27u32) & 1,
            (a >> 28u32) & 1 == (b >> 28u32) & 1,
            (a >> 29u32) & 1 == (b >> 29u32) & 1,
            (a >> 30u32) & 1 == (b >> 30u32) & 1,
            (a >> 31u32) & 1 == (b >> 31u32) & 1,
    ;
}

/// Two u64 values with the same 64 bits are equal.
pub proof fn lemma_bits_eq_u64(a: u64, b: u64)
    requires
        forall|j: u64| j < 64 ==> #[trigger] bit_u64(a, j) == bit_u64(b, j),
    ensures
        a == b,
{
    assert(bit_u64(a, 0) == bit_u64(b, 0));
    assert(bit_u64(a, 1) == bit_u64(b, 1));
    assert(bit_u64(a, 2) == bit_u64(b, 2));
    assert(bit_u64(a, 3) == bit_u64(b, 3));
    assert(bit_u64(a, 4) == bit_u64(b, 4));
    assert(bit_u64(a, 5) == bit_u64(b, 5));
    assert(bit_u64(a, 6) == bit_u64(b, 6));
    assert(bit_u64(a, 7) == bit_u64(b, 7));
    assert(bit_u64(a, 8) == bit_u64(b, 8));
    assert(bit_u64(a, 9) == bit_u64(b, 9));
    assert(bit_u64(a, 10) == bit_u64(b, 10));
    assert(bit_u64(a, 11) == bit_u64(b, 11));
    assert(bit_u64(a, 12) == bit_u64(b, 12));
    assert(bit_u64(a, 13) == bit_u64(b, 13));
    assert(bit_u64(a, 14) == bit_u64(b, 14));
    assert(bit_u64(a, 15) == bit_u64(b, 15));
    assert(bit_u64(a, 16) == bit_u64(b, 16));
    assert(bit_u64(a, 17) == bit_u64(b, 17));
    assert(bit_u64(a, 18) == bit_u64(b, 18));
    assert(bit_u64(a, 19) == bit_u64(b, 19));
    assert(bit_u64(a, 20) == bit_u64(b, 20));
    assert(bit_u64(a, 21) == bit_u64(b, 21));
    assert(bit_u64(a, 22) == bit_u64(b, 22));
    assert(bit_u64(a, 23) == bit_u64(b, 23));
    assert(bit_u64(a, 24) == bit_u64(b, 24));
    assert(bit_u64(a, 25) == bit_u64(b, 25));
    assert(bit_u64(a, 26) == bit_u64(b, 26));
    assert(bit_u64(a, 27) == bit_u64(b, 27));
    assert(bit_u64(a, 28) == bit_u64(b, 28));
    assert(bit_u64(a, 29) == bit_u64(b, 29));
    assert(bit_u64(a, 30) == bit_u64(b, 30));
    assert(bit_u64(a, 31) == bit_u64(b, 31));
    assert(bit_u64(a, 32) == bit_u64(b, 32));
    assert(bit_u64(a, 33) == bit_u64(b, 33));
    assert(bit_u64(a, 34) == bit_u64(b, 34));
    assert(bit_u64(a, 35) == bit_u64(b, 35));
    assert(bit_u64(a, 36) == bit_u64(b, 36));
    assert(bit_u64(a, 37) == bit_u64(b, 37));
    assert(bit_u64(a, 38) == bit_u64(b, 38));
    assert(bit_u64(a, 39) == bit_u64(b, 39));
    assert(bit_u64(a, 40) == bit_u64(b, 40));
    assert(bit_u64(a, 41) == bit_u64(b, 41));
    assert(bit_u64(a, 42) == bit_u64(b, 42));
    assert(bit_u64(a, 43) == bit_u64(b, 43));
    assert(bit_u64(a, 44) == bit_u64(b, 44));
    assert(bit_u64(a, 45) == bit_u64(b, 45));
    assert(bit_u64(a, 46) == bit_u64(b, 46));
    assert(bit_u64(a, 47) == bit_u64(b, 47));
    assert(bit_u64(a, 48) == bit_u64(b, 48));
    assert(bit_u64(a, 49) == bit_u64(b, 49));
    assert(bit_u64(a, 50) == bit_u64(b, 50));
    assert(bit_u64(a, 51) == bit_u64(b, 51));
    assert(bit_u64(a, 52) == bit_u64(b, 52));
    assert(bit_u64(a, 53) == bit_u64(b, 53));
    assert(bit_u64(a, 54) == bit_u64(b, 54));
    assert(bit_u64(a, 55) == bit_u64(b, 55));
    assert(bit_u64(a, 56) == bit_u64(b, 56));
    assert(bit_u64(a, 57) == bit_u64(b, 57));
    assert(bit_u64(a, 58) == bit_u64(b, 58));
    assert(bit_u64(a, 59) == bit_u64(b, 59));
    assert(bit_u64(a, 60) == bit_u64(b, 60));
    assert(bit_u64(a, 61) == bit_u64(b, 61));
    assert(bit_u64(a, 62) == bit_u64(b, 62));
    assert(bit_u64(a, 63) == bit_u64(b, 63));
    assert(a == b) by (bit_vector)
        requires
            (a >> 0u64) & 1 == (b >> 0u64) & 1,
            (a >> 1u64) & 1 == (b >> 1u64) & 1,
            (a >> 2u64) & 1 == (b >> 2u64) & 1,
            (a >> 3u64) & 1 == (b >> 3u64) & 1,
            (a >> 4u64) & 1 == (b >> 4u64) & 1,
            (a >> 5u64) & 1 == (b >> 5u64) & 1,
            (a >> 6u64) & 1 == (b >> 6u64) & 1,
            (a >> 7u64) & 1 == (b >> 7u64) & 1,
            (a >> 8u64) & 1 == (b >> 8u64) & 1,
            (a >> 9u64) & 1 == (b >> 9u64) & 1,
            (a >> 10u64) & 1 == (b >> 10u64) & 1,
            (a >> 11u64) & 1 == (b >> 11u64) & 1,
            (a >> 12u64) & 1 == (b >> 12u64) & 1,
            (a >> 13u64) & 1 == (b >> 13u64) & 1,
            (a >> 14u64) & 1 == (b >> 14u64) & 1,
            (a >> 15u64) & 1 == (b >> 15u64) & 1,
            (a >> 16u64) & 1 == (b >> 16u64) & 1,
            (a >> 17u64) & 1 == (b >> 17u64) & 1,
            (a >> 18u64) & 1 == (b >> 18u64) & 1,
            (a >> 19u64) & 1 == (b >> 19u64) & 1,
            (a >> 20u64) & 1 == (b >> 20u64) & 1,
            (a >> 21u64) & 1 == (b >> 21u64) & 1,
            (a >> 22u64) & 1 == (b >> 22u64) & 1,
            (a >> 23u64) & 1 == (b >> 23u64) & 1,
            (a >> 24u64) & 1 == (b >> 24u64) & 1,
            (a >> 25u64) & 1 == (b >> 25u64) & 1,
            (a >> 26u64) & 1 == (b >> 26u64) & 1,
            (a >> 27u64) & 1 == (b >> 27u64) & 1,
            (a >> 28u64) & 1 == (b >> 28u64) & 1,
            (a >> 29u64) & 1 == (b >> 29u64) & 1,
            (a >> 30u64) & 1 == (b >> 30u64) & 1,
            (a >> 31u64) & 1 == (b >> 31u64) & 1,
            (a >> 32u64) & 1 == (b >> 32u64) & 1,
            (a >> 33u64) & 1 == (b >> 33u64) & 1,
            (a >> 34u64) & 1 == (b >> 34u64) & 1,
            (a >> 35u64) & 1 == (b >> 35u64) & 1,
            (a >> 36u64) & 1 == (b >> 36u64) & 1,
            (a >> 37u64) & 1 == (b >> 37u64) & 1,
            (a >> 38u64) & 1 == (b >> 38u64) & 1,
            (a >> 39u64) & 1 == (b >> 39u64) & 1,
            (a >> 40u64) & 1 == (b >> 40u64) & 1,
            (a >> 41u64) & 1 == (b >> 41u64) & 1,
            (a >> 42u64) & 1 == (b >> 42u64) & 1,
            (a >> 43u64) & 1 == (b >> 43u64) & 1,
            (a >> 44u64) & 1 == (b >> 44u64) & 1,
            (a >> 45u64) & 1 == (b >> 45u64) & 1,
            (a >> 46u64) & 1 == (b >> 46u64) & 1,
            (a >> 47u64) & 1 == (b >> 47u64) & 1,
            (a >> 48u64) & 1 == (b >> 48u64) & 1,
            (a >> 49u64) & 1 == (b >> 49u64) & 1,
            (a >> 50u64) & 1 == (b >> 50u64) & 1,
            (a >> 51u64) & 1 == (b >> 51u64) & 1,
            (a >> 52u64) & 1 == (b >> 52u64) & 1,
            (a >> 53u64) & 1 == (b >> 53u64) & 1,
            (a >> 54u64) & 1 == (b >> 54u64) & 1,
            (a >> 55u64) & 1 == (b >> 55u64) & 1,
            (a >> 56u64) & 1 == (b >> 56u64) & 1,
            (a >> 57u64) & 1 == (b >> 57u64) & 1,
            (a >> 58u64) & 1 == (b >> 58u64) & 1,
            (a >> 59u64) & 1 == (b >> 59u64) & 1,
            (a >> 60u64) & 1 == (b >> 60u64) & 1,
            (a >> 61u64) & 1 == (b >> 61u64) & 1,
            (a >> 62u64) & 1 == (b >> 62u64) & 1,
            (a >> 63u64) & 1 == (b >> 63u64) & 1,
    ;
}

} // verus!
