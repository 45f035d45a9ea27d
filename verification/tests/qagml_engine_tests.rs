use symmetrix::qagml::QagmlConfig;
use symmetrix::qagml_engine::{BranchFreeEngine, GaloisFieldEngine, QagmlEngine};

#[test]
fn field_products() {
    let mut gf = GaloisFieldEngine::new();
    assert_eq!(gf.gf_multiply(2, 3), 6);
    assert_eq!(gf.gf_multiply(0x8000_0000, 2), 0x8d);
    assert_eq!(gf.gf_multiply(0x1234_5678, 0x9e37_79b9), 0xe51c_503a);
    assert_eq!(gf.gf_multiply(0x9e37_79b9, 0x1234_5678), 0xe51c_503a);
    assert_eq!(gf.gf_multiply(0, 0xffff_ffff), 0);
    assert_eq!(gf.gf_multiply(0xffff_ffff, 1), 0xffff_ffff);
}

#[test]
fn remembered_products_are_the_same() {
    let mut gf = GaloisFieldEngine::new();
    let first = gf.gf_multiply(0x1234_5678, 0x9e37_79b9);
    let second = gf.gf_multiply(0x1234_5678, 0x9e37_79b9);
    assert_eq!(first, second);
}

#[test]
fn address_encryption() {
    let mut gf = GaloisFieldEngine::new();
    assert_eq!(gf.encrypt_address(0), 0);
    assert_eq!(gf.encrypt_address(1), 0x9e37_79b9);
    assert_eq!(gf.encrypt_address(0x0000_0001_0000_0002), 0x7f4a_7c15_3c6e_f3ff);
}

#[test]
fn branchless_selection() {
    let bf = BranchFreeEngine::new();
    assert_eq!(bf.branchless_select(true, 10, 20), 10);
    assert_eq!(bf.branchless_select(false, 10, 20), 20);
    assert_eq!(bf.branchless_select(true, u64::MAX, 0), u64::MAX);
    assert_eq!(bf.branchless_select(false, u64::MAX, 0), 0);
}

#[test]
fn read_after_write_returns_the_data() {
    let mut engine = QagmlEngine::new(QagmlConfig::default());
    engine.write_memory(0x1000, vec![1, 2, 3]);
    assert_eq!(engine.read_memory(0x1000, 4096), vec![1, 2, 3]);
    assert_eq!(engine.read_memory(0x1000, 1), vec![1, 2, 3]);
    assert_eq!(engine.cache_hits(), 2);
    assert_eq!(engine.cache_misses(), 0);
    assert_eq!(engine.memory_accesses(), 3);
    assert_eq!(engine.bytes_processed(), 3);
}

#[test]
fn small_reads_repeat_the_low_address_byte() {
    let mut engine = QagmlEngine::new(QagmlConfig::default());
    let data = engine.read_memory(0x1234, 5);
    assert_eq!(data, vec![0x34; 5]);
    assert_eq!(engine.cache_misses(), 1);
    assert_eq!(engine.bytes_processed(), 5);
    // the second read comes from the cache, whatever its size
    assert_eq!(engine.read_memory(0x1234, 100), vec![0x34; 5]);
    assert_eq!(engine.cache_hits(), 1);
}

#[test]
fn large_reads_use_the_scrambled_address() {
    let mut engine = QagmlEngine::new(QagmlConfig::default());
    // the scrambled form of address 1 is 0x9e3779b9
    let data = engine.read_memory(1, 4096);
    assert_eq!(data.len(), 4096);
    assert!(data.iter().all(|b| *b == 0xb9));
}

#[test]
fn history_keeps_the_last_thousand_accesses() {
    let mut engine = QagmlEngine::new(QagmlConfig::default());
    for a in 0..1005u64 {
        engine.write_memory(a, vec![]);
    }
    let h = engine.history();
    assert_eq!(h.len(), 1000);
    assert_eq!(h[0], 5);
    assert_eq!(h[999], 1004);
    assert_eq!(engine.configuration(), QagmlConfig::default());
}

#[test]
fn address_zero_scrambles_to_zero() {
    let mut engine = symmetrix::qagml_engine::GaloisFieldEngine::new();
    assert_eq!(engine.encrypt_address(0), 0);
}

#[test]
fn engine_product_is_the_word_field_product() {
    let mut gf = GaloisFieldEngine::new();
    for (a, b) in [(0x1234_5678u32, 0x8765_4321u32), (0x8000_0000, 2), (0xffff_ffff, 0xffff_ffff), (0, 7)] {
        assert_eq!(gf.gf_multiply(a, b), symmetrix::gf32::GF32::new(a).mul(symmetrix::gf32::GF32::new(b)).0);
    }
    assert_eq!(gf.gf_multiply(0x7f4a_7c15, 0xfcf6_e3ac), 1);
    assert_eq!(gf.gf_multiply(0x9e37_79b9, 0xa98d_b6d2), 1);
}

#[test]
fn distinct_addresses_scramble_apart() {
    let mut gf = GaloisFieldEngine::new();
    let addresses = [0u64, 1, 2, 0x1_0000_0000, 0xffff_ffff, 0xdead_beef_0000_0001, u64::MAX];
    let scrambled: Vec<u64> = addresses.iter().map(|&a| gf.encrypt_address(a)).collect();
    for i in 0..addresses.len() {
        for j in 0..i {
            assert_ne!(scrambled[i], scrambled[j]);
        }
    }
}
