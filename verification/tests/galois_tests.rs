use symmetrix::bignat::BigNat;
use symmetrix::crt::CRTDecomposition;
use symmetrix::galois::{
    initialize_galois_engine, vector_add, vector_mul, GaloisElement, GaloisEngine, GaloisError, CRT_PRIMES,
    MERSENNE_61,
};

#[test]
fn test_galois_element_creation() {
    let elem = GaloisElement::mersenne(42);
    assert_eq!(elem.value, 42);
    assert_eq!(elem.modulus, MERSENNE_61);
}

#[test]
fn test_galois_arithmetic() {
    let a = GaloisElement::mersenne(100);
    let b = GaloisElement::mersenne(200);

    let sum = a + b;
    assert_eq!(sum.value, 300);

    let product = a * b;
    assert_eq!(product.value, 20000);
}

#[test]
fn test_galois_inverse() {
    let elem = GaloisElement::mersenne(7);
    let inv = elem.inverse().unwrap();
    let product = elem * inv;
    assert_eq!(product.value, 1);
}

#[test]
fn test_crt_decomposition() {
    // 101 * 103 * 107 = 1,113,121 > 12345
    let value = BigNat::from_u64(12345);
    let primes = &[101u64, 103u64, 107u64];

    let decomp = CRTDecomposition::decompose(&value, primes);
    let reconstructed = decomp.reconstruct().unwrap();

    assert_eq!(reconstructed.to_u64(), 12345);

    // Also test with smaller value and smaller primes
    let small_value = BigNat::from_u64(500);
    let small_primes = &[7u64, 11u64, 13u64]; // Product = 1001 > 500

    let small_decomp = CRTDecomposition::decompose(&small_value, small_primes);
    let small_reconstructed = small_decomp.reconstruct().unwrap();

    assert_eq!(small_reconstructed.to_u64(), 500);
}

#[test]
fn new_reduces_modulo() {
    let e = GaloisElement::new(17, 5);
    assert_eq!(e.value, 2);
    assert_eq!(e.modulus, 5);
    let m = GaloisElement::mersenne(MERSENNE_61 + 3);
    assert_eq!(m.value, 3);
}

#[test]
fn zero_and_one() {
    assert!(GaloisElement::zero().is_zero());
    assert!(GaloisElement::one().is_one());
    assert!(!GaloisElement::one().is_zero());
    assert_eq!(GaloisElement::one().modulus, MERSENNE_61);
}

#[test]
fn sub_wraps_around() {
    let a = GaloisElement::new(3, 7);
    let b = GaloisElement::new(5, 7);
    assert_eq!((a - b).value, 5);
    assert_eq!((b - a).value, 2);
    assert_eq!((a - a).value, 0);
}

#[test]
fn neg_is_additive_inverse() {
    let a = GaloisElement::new(3, 7);
    assert_eq!((-a).value, 4);
    assert_eq!((a + (-a)).value, 0);
    let z = GaloisElement::new(0, 7);
    assert_eq!((-z).value, 0);
}

#[test]
fn mul_reduces_large_products() {
    let a = GaloisElement::mersenne(MERSENNE_61 - 1);
    // (p - 1)^2 = 1 mod p
    assert_eq!((a * a).value, 1);
}

#[test]
fn inverse_of_zero_is_division_by_zero() {
    let z = GaloisElement::mersenne(0);
    assert!(matches!(z.inverse(), Err(GaloisError::DivisionByZero)));
}

#[test]
fn inverse_of_non_unit_is_invalid_element() {
    // gcd(4, 6) = 2
    let e = GaloisElement::new(4, 6);
    match e.inverse() {
        Err(GaloisError::InvalidElement(msg)) => assert_eq!(msg, "Element 4 is not invertible in GF(6)"),
        other => panic!("unexpected {:?}", other),
    }
}

#[test]
fn inverse_in_small_field() {
    let e = GaloisElement::new(3, 7);
    let inv = e.inverse().unwrap();
    assert_eq!(inv.value, 5);
    assert_eq!((e * inv).value, 1);
}

#[test]
fn division() {
    let a = GaloisElement::new(6, 7);
    let b = GaloisElement::new(3, 7);
    assert_eq!((a / b).unwrap().value, 2);
    let z = GaloisElement::new(0, 7);
    assert!(matches!(a / z, Err(GaloisError::DivisionByZero)));
}

#[test]
fn pow_values() {
    let a = GaloisElement::new(3, 7);
    assert_eq!(a.pow(0).value, 1);
    assert_eq!(a.pow(1).value, 3);
    assert_eq!(a.pow(2).value, 2);
    assert_eq!(a.pow(6).value, 1);
    let m = GaloisElement::mersenne(2);
    assert_eq!(m.pow(61).value, 1);
    assert_eq!(m.pow(10).value, 1024);
}

#[test]
fn polynomial_coefficients() {
    let a = GaloisElement::new(3, 7);
    let c = a.to_polynomial_coeffs(3);
    assert_eq!(c.len(), 4);
    assert_eq!(c[0], a);
    assert_eq!(c[1], GaloisElement::new(0, 7));
    assert_eq!(c[3].modulus, 7);
}

#[test]
fn display_text() {
    assert_eq!(GaloisElement::new(3, 7).to_string(), "3(mod 7)");
}

#[test]
fn engine_creation_and_elements() {
    let engine = initialize_galois_engine(13).unwrap();
    assert_eq!(engine.prime, 13);
    assert_eq!(engine.crt_primes, CRT_PRIMES.to_vec());
    assert!(engine.power_cache.is_empty());
    assert_eq!(engine.element(20).value, 7);
    let e2 = GaloisEngine::new(MERSENNE_61);
    assert_eq!(e2.element(5).modulus, MERSENNE_61);
}

#[test]
fn matrix_multiply_small() {
    let engine = GaloisEngine::new(MERSENNE_61);
    let m = |v: u64| GaloisElement::mersenne(v);
    let a = vec![vec![m(1), m(2)], vec![m(3), m(4)]];
    let b = vec![vec![m(5), m(6)], vec![m(7), m(8)]];
    let c = engine.matrix_multiply_polynomial(&a, &b).unwrap();
    assert_eq!(c.len(), 2);
    assert_eq!(c[0][0].value, 19);
    assert_eq!(c[0][1].value, 22);
    assert_eq!(c[1][0].value, 43);
    assert_eq!(c[1][1].value, 50);
}

#[test]
fn matrix_multiply_dimension_mismatch() {
    let engine = GaloisEngine::new(MERSENNE_61);
    let m = |v: u64| GaloisElement::mersenne(v);
    let a = vec![vec![m(1), m(2), m(3)]];
    let b = vec![vec![m(5)], vec![m(7)]];
    match engine.matrix_multiply_polynomial(&a, &b) {
        Err(GaloisError::DimensionMismatch { expected, actual }) => {
            assert_eq!(expected, 2);
            assert_eq!(actual, 3);
        }
        other => panic!("unexpected {:?}", other),
    }
}

#[test]
fn matrix_multiply_wraps_modulus() {
    let engine = GaloisEngine::new(MERSENNE_61);
    let a = vec![vec![GaloisElement::mersenne(MERSENNE_61 - 1), GaloisElement::mersenne(MERSENNE_61 - 1)]];
    let b = vec![vec![GaloisElement::mersenne(1)], vec![GaloisElement::mersenne(1)]];
    let c = engine.matrix_multiply_polynomial(&a, &b).unwrap();
    assert_eq!(c[0][0].value, MERSENNE_61 - 2);
}

#[test]
fn crt_residues_and_product() {
    let d = CRTDecomposition::decompose(&BigNat::from_u64(500), &[7, 11, 13]);
    let values: Vec<u64> = d.residues.iter().map(|r| r.value).collect();
    assert_eq!(values, vec![3, 5, 6]);
    assert_eq!(d.primes, vec![7, 11, 13]);
    assert_eq!(d.modulus_product.to_u64(), 1001);
}

#[test]
fn crt_reconstruct_reduces_modulo_product() {
    let d = CRTDecomposition::decompose(&BigNat::from_u64(2000), &[7, 11, 13]);
    assert_eq!(d.reconstruct().unwrap().to_u64(), 2000 % 1001);
}

#[test]
fn crt_reconstruct_large_primes() {
    let primes = [2147483647u64, 2147483629u64, 2147483587u64];
    let v = 0xFFFF_FFFF_FFFF_FFF0u64;
    let d = CRTDecomposition::decompose(&BigNat::from_u64(v), &primes);
    assert_eq!(d.reconstruct().unwrap().to_u64(), v);
}

#[test]
fn crt_reconstruct_empty() {
    let d = CRTDecomposition::decompose(&BigNat::from_u64(99), &[]);
    assert_eq!(d.reconstruct().unwrap().to_u64(), 0);
}

#[test]
fn crt_non_coprime_moduli_fail() {
    let d = CRTDecomposition::decompose(&BigNat::from_u64(5), &[6, 4]);
    match d.reconstruct() {
        Err(GaloisError::CRTError(msg)) => assert_eq!(msg, "Element not invertible"),
        other => panic!("unexpected {:?}", other.map(|v| v.to_u64())),
    }
    let d2 = CRTDecomposition::decompose(&BigNat::from_u64(5), &[3, 3]);
    match d2.reconstruct() {
        Err(GaloisError::CRTError(msg)) => assert_eq!(msg, "Cannot invert zero"),
        other => panic!("unexpected {:?}", other.map(|v| v.to_u64())),
    }
}

#[test]
fn bignat_round_trip() {
    assert_eq!(BigNat::from_u64(0).to_u64(), 0);
    assert_eq!(BigNat::from_u64(u64::MAX).to_u64(), u64::MAX);
    assert_eq!(BigNat::from_u64(1 << 40).copy().to_u64(), 1 << 40);
}

#[test]
fn crt_addition_is_residue_wise() {
    let primes = [101u64, 103, 107];
    let a = CRTDecomposition::decompose(&BigNat::from_u64(12345), &primes);
    let b = CRTDecomposition::decompose(&BigNat::from_u64(54321), &primes);
    let sum = a.add(&b).unwrap();
    assert_eq!(sum.primes, primes.to_vec());
    for (i, p) in primes.iter().enumerate() {
        assert_eq!(sum.residues[i].value, (12345 + 54321) % p);
        assert_eq!(sum.residues[i].modulus, *p);
    }
    assert_eq!(sum.modulus_product.to_u64(), 101 * 103 * 107);
    assert_eq!(sum.reconstruct().unwrap().to_u64(), 12345 + 54321);
}

#[test]
fn crt_multiplication_is_residue_wise() {
    let primes = [101u64, 103, 107];
    let a = CRTDecomposition::decompose(&BigNat::from_u64(1000), &primes);
    let b = CRTDecomposition::decompose(&BigNat::from_u64(1111), &primes);
    let product = a.mul(&b).unwrap();
    for (i, p) in primes.iter().enumerate() {
        assert_eq!(product.residues[i].value, (1000 * 1111) % p);
    }
    // 1,111,000 reduced modulo 1,113,121 is itself
    assert_eq!(product.reconstruct().unwrap().to_u64(), 1_111_000);
    let c = CRTDecomposition::decompose(&BigNat::from_u64(2000), &primes);
    let wrapped = c.mul(&b).unwrap();
    assert_eq!(wrapped.reconstruct().unwrap().to_u64(), (2000 * 1111) % (101 * 103 * 107));
}

#[test]
fn crt_incompatible_primes() {
    let a = CRTDecomposition::decompose(&BigNat::from_u64(5), &[7, 11]);
    let b = CRTDecomposition::decompose(&BigNat::from_u64(5), &[7, 13]);
    match a.add(&b) {
        Err(GaloisError::CRTError(msg)) => assert_eq!(msg, "Incompatible CRT decompositions"),
        _ => panic!("expected an incompatibility error"),
    }
    match a.mul(&b) {
        Err(GaloisError::CRTError(msg)) => assert_eq!(msg, "Incompatible CRT decompositions"),
        _ => panic!("expected an incompatibility error"),
    }
}

#[test]
fn vector_operations() {
    let a = vec![GaloisElement::new(3, 7), GaloisElement::new(6, 7)];
    let b = vec![GaloisElement::new(5, 7), GaloisElement::new(6, 7)];
    let s = vector_add(&a, &b).unwrap();
    assert_eq!(s, vec![GaloisElement::new(1, 7), GaloisElement::new(5, 7)]);
    let p = vector_mul(&a, &b).unwrap();
    assert_eq!(p, vec![GaloisElement::new(1, 7), GaloisElement::new(1, 7)]);
    assert!(vector_add(&[], &[]).unwrap().is_empty());
}

#[test]
fn vector_length_mismatch() {
    let a = vec![GaloisElement::new(3, 7)];
    match vector_add(&a, &[]) {
        Err(GaloisError::DimensionMismatch { expected, actual }) => {
            assert_eq!(expected, 1);
            assert_eq!(actual, 0);
        }
        _ => panic!("expected a dimension mismatch"),
    }
    assert!(matches!(vector_mul(&[], &a), Err(GaloisError::DimensionMismatch { expected: 0, actual: 1 })));
}

#[test]
fn field_laws_on_values() {
    let m = 101;
    let a = GaloisElement::new(57, m);
    let b = GaloisElement::new(88, m);
    let c = GaloisElement::new(13, m);
    // (a + b) - b == a
    assert_eq!((a + b) - b, a);
    // a + (-a) == 0
    assert_eq!((a + (-a)).value, 0);
    // a * (b + c) == a * b + a * c
    assert_eq!(a * (b + c), a * b + a * c);
    // (a * b) / b == a
    assert_eq!(((a * b) / b).unwrap(), a);
}

#[test]
fn matrix_multiply_dimension_mismatch_other_modulus() {
    let engine = GaloisEngine::new(MERSENNE_61);
    let a = vec![vec![GaloisElement::new(1, 7), GaloisElement::new(2, 7)]];
    let b = vec![vec![GaloisElement::new(3, 7)]];
    match engine.matrix_multiply_polynomial(&a, &b) {
        Err(GaloisError::DimensionMismatch { expected, actual }) => {
            assert_eq!(expected, 1);
            assert_eq!(actual, 2);
        }
        other => panic!("unexpected {:?}", other),
    }
}

#[test]
fn crt_with_pairwise_coprime_moduli() {
    // 4, 9 and 25 are not prime but share no factor
    let d = CRTDecomposition::decompose(&BigNat::from_u64(777), &[4, 9, 25]);
    assert_eq!(d.reconstruct().unwrap().to_u64(), 777);
    let d = CRTDecomposition::decompose(&BigNat::from_u64(1234), &[4, 9, 25]);
    assert_eq!(d.reconstruct().unwrap().to_u64(), 1234 % 900);
}
