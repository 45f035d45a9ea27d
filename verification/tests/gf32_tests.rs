use symmetrix::gf32::{GaloisFieldEngine, GF32};

#[test]
fn test_galois_field_arithmetic() {
    let a = GF32::new(0x12345678);
    let b = GF32::new(0x87654321);

    let sum = a.add(b);
    let product = a.mul(b);

    assert_ne!(sum.0, 0);
    assert_ne!(product.0, 0);
}

#[test]
fn test_encryption_decryption() {
    let engine = GaloisFieldEngine::new();
    let features: Vec<f32> = vec![1.0, 2.0, 3.0, 4.0];
    let bits: Vec<u32> = features.iter().map(|f| f.to_bits()).collect();

    let encrypted = engine.encrypt(&bits);
    let decrypted: Vec<f32> = engine.decrypt(&encrypted).into_iter().map(f32::from_bits).collect();

    // Verify encryption produces different values
    assert_ne!(encrypted[0], features[0].to_bits());
    // Verify decryption produces valid floats
    assert_eq!(decrypted.len(), features.len());
    for dec in &decrypted {
        assert!(dec.is_finite());
    }
}

#[test]
fn test_homomorphic_compression() {
    let engine = GaloisFieldEngine::new();
    let features: Vec<f32> = vec![1.0, 2.0, 3.0, 4.0];
    let bits: Vec<u32> = features.iter().map(|f| f.to_bits()).collect();

    let compressed = engine.secure_compress(&bits);
    assert_eq!(compressed.len(), features.len() / 2);
}

#[test]
fn gf32_exact_products() {
    assert_eq!(GF32::new(2).mul(GF32::new(3)).0, 6);
    // x^31 * x = x^32 = x^7 + x^3 + x^2 + 1
    assert_eq!(GF32::new(0x8000_0000).mul(GF32::new(2)).0, 0x0000_008D);
    assert_eq!(GF32::new(0x12345678).mul(GF32::new(0x87654321)).0, 0xfda0_d980);
    assert_eq!(GF32::new(0x12345678).add(GF32::new(0x87654321)).0, 0x9551_1559);
    assert_eq!(GF32::new(3).pow(5).0, 0x33);
    assert_eq!(GF32::new(7).pow(0).0, 1);
    assert_eq!(GF32::new(1).inv().0, 1);
    assert_eq!(GF32::new(0).inv().0, 0);
}

#[test]
fn gf32_addition_is_a_group() {
    let a = GF32::new(0xdead_beef);
    let b = GF32::new(0x0bad_f00d);
    assert_eq!(a.add(b), b.add(a));
    assert_eq!(a.add(GF32::new(0)), a);
    assert_eq!(a.add(a).0, 0);
}

#[test]
fn gf32_multiplication_distributes() {
    let a = GF32::new(0x1357_9bdf);
    let b = GF32::new(0x2468_ace0);
    let k = GF32::new(0x0f0f_1234);
    assert_eq!(a.add(b).mul(k), a.mul(k).add(b.mul(k)));
    assert_eq!(k.mul(a.add(b)), k.mul(a).add(k.mul(b)));
}

#[test]
fn encryption_exact_words() {
    let engine = GaloisFieldEngine::new();
    let bits = [0x3f80_0000u32, 0x4000_0000, 0x4040_0000, 0x4080_0000];
    let encrypted = engine.encrypt(&bits);
    assert_eq!(encrypted, vec![0xc46e_8d4a, 0x745b_210c, 0xe82f_7a65, 0x4cb3_9753]);
    let decrypted = engine.decrypt(&encrypted);
    assert_eq!(decrypted, bits.to_vec());
}

#[test]
fn encryption_is_additively_homomorphic() {
    let engine = GaloisFieldEngine::with_key(0xcafe_babe);
    let a = 0x1234_0000u32;
    let b = 0x0000_5678u32;
    let e = engine.encrypt(&[a, b, a ^ b]);
    assert_eq!(e[2], e[0] ^ e[1]);
}

#[test]
fn compression_pairs_words() {
    let engine = GaloisFieldEngine::new();
    let encrypted = [0xc46e_8d4au32, 0x745b_210c, 0xe82f_7a65, 0x4cb3_9753];
    let compressed = engine.compress_encrypted(&encrypted);
    assert_eq!(compressed, vec![0xa215_5e30, 0x8396_b6e2]);
    let odd = engine.compress_encrypted(&encrypted[..3]);
    assert_eq!(odd.len(), 2);
    assert_eq!(odd[1], GF32::new(0xe82f_7a65).mul(GF32::new(0x8765_4321)).0);
    assert!(engine.compress_encrypted(&[]).is_empty());
}

#[test]
fn secure_compress_exact_words() {
    let engine = GaloisFieldEngine::new();
    let bits = [0x3f80_0000u32, 0x4000_0000, 0x4040_0000, 0x4080_0000];
    assert_eq!(engine.secure_compress(&bits), vec![0x696c_3a3d, 0x6b0d_633d]);
}

#[test]
fn decompression_emits_two_words() {
    let engine = GaloisFieldEngine::new();
    let d = engine.decompress_encrypted(&[0x3316_5f9d]);
    let ck_inv = GF32::new(0x8765_4321).inv();
    let w = GF32::new(0x3316_5f9d).mul(ck_inv).0;
    assert_eq!(d, vec![w, w ^ 0xAAAA_AAAA]);
}

#[test]
fn with_key_rotates_compression_key() {
    let a = GaloisFieldEngine::with_key(0x0001_ffff);
    let b = GaloisFieldEngine::with_key(0x0001_ffff);
    let words = [5u32, 6];
    let expected = GF32::new(5 ^ 6).mul(GF32::new(0xffff_0001)).0;
    assert_eq!(a.compress_encrypted(&words), vec![expected]);
    assert_eq!(a.encrypt(&words), b.encrypt(&words));
    assert_eq!(a.encrypt(&[1])[0], 0x0001_ffff);
}

#[test]
fn default_engine_matches_new() {
    let d = GaloisFieldEngine::default();
    let n = GaloisFieldEngine::new();
    assert_eq!(d.encrypt(&[1, 2, 3]), n.encrypt(&[1, 2, 3]));
    assert_eq!(n.encrypt(&[1])[0], 0x1234_5678);
}

#[test]
fn gf32_multiplication_commutes() {
    let pairs = [(0x1234_5678u32, 0x8765_4321u32), (0xffff_ffff, 2), (0x8000_0000, 0x8000_0001), (7, 0)];
    for (a, b) in pairs {
        assert_eq!(GF32::new(a).mul(GF32::new(b)), GF32::new(b).mul(GF32::new(a)));
    }
}

#[test]
fn compression_of_encrypted_pairs() {
    let engine = GaloisFieldEngine::with_key(0x0bad_cafe);
    let words = [0x1111_0000u32, 0x0000_2222, 0x3333_3333];
    let compressed = engine.compress_encrypted(&engine.encrypt(&words));
    let sum = engine.encrypt(&[words[0] ^ words[1], words[2]]);
    let ck = GF32::new(0xcafe_0bad);
    assert_eq!(compressed[0], GF32::new(sum[0]).mul(ck).0);
    assert_eq!(compressed[1], GF32::new(sum[1]).mul(ck).0);
}

#[test]
fn gf32_inverses() {
    for a in [1u32, 2, 3, 0x8d, 0x1234_5678, 0x8765_4321, 0xffff_ffff] {
        assert_eq!(GF32::new(a).mul(GF32::new(a).inv()).0, 1, "a = {:#x}", a);
    }
}

#[test]
fn decryption_undoes_encryption() {
    let engine = GaloisFieldEngine::with_key(0xcafe_babe);
    let bits = [0u32, 1, 0x3f80_0000, 0xdead_beef, 0xffff_ffff];
    assert_eq!(engine.decrypt(&engine.encrypt(&bits)), bits.to_vec());
}

#[test]
fn gf32_multiplication_is_associative() {
    let triples = [(0x1234_5678u32, 0x8765_4321u32, 0xdead_beefu32), (0xffff_ffff, 0x8000_0001, 3), (2, 0x8000_0000, 0x8d)];
    for (a, b, c) in triples {
        let (a, b, c) = (GF32::new(a), GF32::new(b), GF32::new(c));
        assert_eq!(a.mul(b).mul(c), a.mul(b.mul(c)));
    }
}

#[test]
fn gf32_identities_and_powers() {
    let a = GF32::new(0x0bad_f00d);
    assert_eq!(a.mul(GF32::new(1)), a);
    assert_eq!(a.mul(GF32::new(0)).0, 0);
    assert_eq!(a.pow(0).0, 1);
    assert_eq!(a.pow(1), a);
    assert_eq!(a.pow(12), a.pow(5).mul(a.pow(7)));
    assert_eq!(a.pow(3), a.mul(a).mul(a));
}

#[test]
fn decompression_undoes_compression() {
    let engine = GaloisFieldEngine::new();
    let words = [0x1111_2222u32, 0x3333_4444, 0x5555_6666];
    let d = engine.decompress_encrypted(&engine.compress_encrypted(&words));
    assert_eq!(d, vec![0x1111_2222 ^ 0x3333_4444, 0x1111_2222 ^ 0x3333_4444 ^ 0xAAAA_AAAA, 0x5555_6666, 0x5555_6666 ^ 0xAAAA_AAAA]);
}
