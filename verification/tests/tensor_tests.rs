use symmetrix::morton::MortonEncoding;
use symmetrix::tensor::{
    initialize_tensor_engine, integer_sqrt, CacheConfig, CacheLevel, MemoryStats, TensorBlock, TensorError,
    TensorFolder,
};

#[test]
fn test_morton_encoding_2d() {
    let (x, y) = (5, 3);
    let morton = MortonEncoding::encode_2d(x, y);
    let (decoded_x, decoded_y) = MortonEncoding::decode_2d(morton);

    assert_eq!(x, decoded_x);
    assert_eq!(y, decoded_y);
}

#[test]
fn test_morton_encoding_3d() {
    let (x, y, z) = (7, 4, 2);
    let morton = MortonEncoding::encode_3d(x, y, z);
    let (decoded_x, decoded_y, decoded_z) = MortonEncoding::decode_3d(morton);

    assert_eq!(x, decoded_x);
    assert_eq!(y, decoded_y);
    assert_eq!(z, decoded_z);
}

#[test]
fn test_tensor_block_creation() {
    let dimensions = vec![4, 4];
    let block = TensorBlock::<f64>::new(dimensions.clone(), CacheLevel::L1);

    assert!(block.is_ok());
    let block = block.unwrap();
    assert_eq!(block.dimensions, dimensions);
    assert_eq!(block.cache_level, CacheLevel::L1);
}

#[test]
fn test_tensor_block_access() {
    let dimensions = vec![3, 3];
    let mut block = TensorBlock::<f64>::new(dimensions, CacheLevel::L1).unwrap();

    let indices = vec![1, 2];
    let value = 42.0;

    block.set(&indices, value).unwrap();
    let retrieved = *block.get(&indices).unwrap();

    assert_eq!(retrieved, value);
}

#[test]
fn morton_2d_exact_values() {
    assert_eq!(MortonEncoding::encode_2d(5, 3), 27);
    assert_eq!(MortonEncoding::encode_2d(1, 0), 1);
    assert_eq!(MortonEncoding::encode_2d(0, 1), 2);
    assert_eq!(MortonEncoding::encode_2d(u32::MAX, u32::MAX), u64::MAX);
    assert_eq!(MortonEncoding::decode_2d(27), (5, 3));
}

#[test]
fn morton_3d_exact_values() {
    assert_eq!(MortonEncoding::encode_3d(7, 4, 2), 233);
    assert_eq!(MortonEncoding::encode_3d(1, 0, 0), 1);
    assert_eq!(MortonEncoding::encode_3d(0, 1, 0), 2);
    assert_eq!(MortonEncoding::encode_3d(0, 0, 1), 4);
    assert_eq!(MortonEncoding::decode_3d(233), (7, 4, 2));
}

#[test]
fn morton_decode_then_encode_round_trips() {
    let m: u64 = 0x0123_4567_89ab_cdef;
    let (x, y) = MortonEncoding::decode_2d(m);
    assert_eq!(MortonEncoding::encode_2d(x, y), m);
    let (x, y, z) = MortonEncoding::decode_3d(m);
    assert_eq!(MortonEncoding::encode_3d(x, y, z), m & 0x7fff_ffff_ffff_ffff);
}

#[test]
fn morton_3d_keeps_only_21_bits() {
    let x: u32 = 0xffff_ffff;
    let (dx, dy, dz) = MortonEncoding::decode_3d(MortonEncoding::encode_3d(x, 0, 0));
    assert_eq!(dx, x & 0x1f_ffff);
    assert_eq!(dy, 0);
    assert_eq!(dz, 0);
}

#[test]
fn cache_level_sizes() {
    assert_eq!(CacheLevel::L1.typical_size(), 32 * 1024);
    assert_eq!(CacheLevel::L2.typical_size(), 256 * 1024);
    assert_eq!(CacheLevel::L3.typical_size(), 8 * 1024 * 1024);
    assert_eq!(CacheLevel::Memory.typical_size(), usize::MAX);
    assert_eq!(CacheLevel::L1.line_size(), 64);
    assert_eq!(CacheLevel::L3.line_size(), 64);
    assert_eq!(CacheLevel::Memory.line_size(), 4096);
}

#[test]
fn tensor_block_zero_dimension_is_refused() {
    let r = TensorBlock::<u32>::new(vec![4, 0], CacheLevel::L2);
    assert!(matches!(r, Err(TensorError::InvalidDimensions(_))));
}

#[test]
fn tensor_block_fields_and_layout() {
    let block = TensorBlock::<u32>::new(vec![2, 3, 4], CacheLevel::Memory).unwrap();
    assert_eq!(block.data.len(), 24);
    assert!(block.data.iter().all(|v| *v == 0));
    assert_eq!(block.alignment, 4096);
    assert_eq!(block.morton_index, MortonEncoding::encode_3d(2, 3, 4));
    let flat = TensorBlock::<u32>::new(vec![5], CacheLevel::L1).unwrap();
    assert_eq!(flat.morton_index, 0);
    assert_eq!(flat.alignment, 64);
}

#[test]
fn tensor_block_row_major_offsets() {
    let mut block = TensorBlock::<u32>::new(vec![2, 3, 4], CacheLevel::L1).unwrap();
    block.set(&[1, 2, 3], 7).unwrap();
    assert_eq!(block.data[12 + 8 + 3], 7);
    block.set(&[0, 1, 0], 9).unwrap();
    assert_eq!(block.data[4], 9);
    assert_eq!(*block.get(&[0, 1, 0]).unwrap(), 9);
    assert_eq!(*block.get(&[0, 0, 0]).unwrap(), 0);
}

#[test]
fn tensor_block_index_errors() {
    let mut block = TensorBlock::<u32>::new(vec![3, 3], CacheLevel::L1).unwrap();
    assert!(matches!(block.get(&[1]), Err(TensorError::InvalidDimensions(_))));
    assert!(matches!(block.get(&[3, 0]), Err(TensorError::InvalidDimensions(_))));
    assert!(matches!(block.set(&[0, 3], 1), Err(TensorError::InvalidDimensions(_))));
    assert!(block.data.iter().all(|v| *v == 0));
    if let Err(TensorError::InvalidDimensions(msg)) = block.get(&[1, 2, 3]) {
        assert_eq!(msg, "Expected 2 indices, got 3");
    } else {
        panic!("arity error expected");
    }
    if let Err(TensorError::InvalidDimensions(msg)) = block.get(&[1, 5]) {
        assert_eq!(msg, "Index 5 out of bounds for dimension 1 (size 3)");
    } else {
        panic!("bounds error expected");
    }
}

#[test]
fn cache_config_placement() {
    let config = CacheConfig::default();
    assert_eq!(config.l1_size, 32 * 1024);
    assert_eq!(config.l2_size, 256 * 1024);
    assert_eq!(config.l3_size, 8 * 1024 * 1024);
    assert_eq!(config.line_size, 64);
    assert_eq!(config.associativity, 8);
    assert_eq!(config.level_for(800), CacheLevel::L1);
    assert_eq!(config.level_for(32 * 1024), CacheLevel::L1);
    assert_eq!(config.level_for(32 * 1024 + 1), CacheLevel::L2);
    assert_eq!(config.level_for(8 * 1024 * 1024), CacheLevel::L3);
    assert_eq!(config.level_for(8 * 1024 * 1024 + 1), CacheLevel::Memory);
}

#[test]
fn memory_stats_accounting() {
    let mut stats = MemoryStats::default();
    assert_eq!(stats.total_allocated, 0);
    stats.record_allocation(CacheLevel::L1, 800);
    stats.record_allocation(CacheLevel::L3, 1000);
    stats.record_allocation(CacheLevel::Memory, 5);
    assert_eq!(stats.total_allocated, 1805);
    assert_eq!(stats.l1_usage, 800);
    assert_eq!(stats.l2_usage, 0);
    assert_eq!(stats.l3_usage, 1000);
    assert_eq!(stats.cache_hits, 0);
    assert_eq!(stats.cache_misses, 0);
}

#[test]
fn test_tensor_folder() {
    let config = CacheConfig::default();
    let mut folder = TensorFolder::<f64>::new(config);

    let dimensions = vec![10, 10];
    let tensor = folder.allocate_tensor(dimensions);

    assert!(tensor.is_ok());

    let stats = folder.get_memory_stats();
    assert!(stats.total_allocated > 0);
}

#[test]
fn folder_places_and_counts_allocations() {
    let mut folder = TensorFolder::<f64>::new(CacheConfig::default());
    let small = folder.allocate_tensor(vec![10, 10]).unwrap();
    assert_eq!(small.cache_level, CacheLevel::L1);
    assert_eq!(small.data.len(), 100);
    let medium = folder.allocate_tensor(vec![100, 100]).unwrap();
    assert_eq!(medium.cache_level, CacheLevel::L2);
    let large = folder.allocate_tensor(vec![1024, 1024]).unwrap();
    assert_eq!(large.cache_level, CacheLevel::L3);
    assert_eq!(large.alignment, 64);
    let stats = folder.get_memory_stats();
    assert_eq!(stats.total_allocated, 800 + 80_000 + 8 * 1024 * 1024);
    assert_eq!(stats.l1_usage, 800);
    assert_eq!(stats.l2_usage, 80_000);
    assert_eq!(stats.l3_usage, 8 * 1024 * 1024);
    assert!(folder.allocate_tensor(vec![0, 3]).is_err());
    assert_eq!(folder.get_memory_stats(), stats);
    assert!(folder.optimize_layout().is_ok());
}

#[test]
fn folder_with_small_l3_uses_memory() {
    let mut folder = initialize_tensor_engine::<u8>(1000).unwrap();
    let b = folder.allocate_tensor(vec![300_000]).unwrap();
    assert_eq!(b.cache_level, CacheLevel::Memory);
    assert_eq!(b.alignment, 4096);
    let stats = folder.get_memory_stats();
    assert_eq!(stats.total_allocated, 300_000);
    assert_eq!(stats.l1_usage + stats.l2_usage + stats.l3_usage, 0);
}

#[test]
fn integer_square_roots() {
    assert_eq!(integer_sqrt(0), 0);
    assert_eq!(integer_sqrt(1), 1);
    assert_eq!(integer_sqrt(8), 2);
    assert_eq!(integer_sqrt(9), 3);
    assert_eq!(integer_sqrt(8192), 90);
    assert_eq!(integer_sqrt(usize::MAX), 4_294_967_295);
    assert_eq!(integer_sqrt(1_000_000), 1000);
    assert_eq!(integer_sqrt(999_999), 999);
}

#[test]
fn fold_keeps_a_fitting_block_whole() {
    let mut block = TensorBlock::<u32>::new(vec![4, 4], CacheLevel::L2).unwrap();
    block.set(&[1, 1], 5).unwrap();
    let blocks = block.fold(CacheLevel::L1).unwrap();
    assert_eq!(blocks.len(), 1);
    assert_eq!(blocks[0].data, block.data);
    assert_eq!(blocks[0].dimensions, block.dimensions);
    assert_eq!(blocks[0].cache_level, CacheLevel::L2);
}

#[test]
fn fold_tiles_a_large_matrix() {
    // 32 KB of u32 holds 8192 elements; tiles are 90 x 90
    let mut block = TensorBlock::<u32>::new(vec![100, 100], CacheLevel::Memory).unwrap();
    for r in 0..100usize {
        for c in 0..100usize {
            block.set(&[r, c], (r * 1000 + c) as u32).unwrap();
        }
    }
    let blocks = block.fold(CacheLevel::L1).unwrap();
    assert_eq!(blocks.len(), 4);
    assert_eq!(blocks[0].dimensions, vec![90, 90]);
    assert_eq!(blocks[1].dimensions, vec![90, 10]);
    assert_eq!(blocks[2].dimensions, vec![10, 90]);
    assert_eq!(blocks[3].dimensions, vec![10, 10]);
    for b in &blocks {
        assert_eq!(b.cache_level, CacheLevel::L1);
        assert_eq!(b.alignment, 64);
        assert!(b.data.len() * 4 <= 32 * 1024);
    }
    assert_eq!(*blocks[2].get(&[5, 3]).unwrap(), 95_003);
    assert_eq!(blocks[2].data[5 * 90 + 3], 95_003);
    assert_eq!(*blocks[1].get(&[0, 9]).unwrap(), 99);
    assert_eq!(*blocks[3].get(&[9, 9]).unwrap(), 99_099);
    assert_eq!(blocks[0].morton_index, MortonEncoding::encode_2d(90, 90));
}

#[test]
fn fold_cuts_a_large_non_matrix_into_runs() {
    // 20 x 20 x 20 u64 = 8000 elements; 32 KB of L1 holds 4096 of them
    let mut block = TensorBlock::<u64>::new(vec![20, 20, 20], CacheLevel::Memory).unwrap();
    for i in 0..20usize {
        for j in 0..20usize {
            for k in 0..20usize {
                block.set(&[i, j, k], (i * 400 + j * 20 + k) as u64).unwrap();
            }
        }
    }
    let blocks = block.fold(CacheLevel::L1).unwrap();
    assert_eq!(blocks.len(), 2);
    assert_eq!(blocks[0].dimensions, vec![4096]);
    assert_eq!(blocks[1].dimensions, vec![8000 - 4096]);
    for b in &blocks {
        assert_eq!(b.cache_level, CacheLevel::L1);
        assert_eq!(b.alignment, 64);
        assert_eq!(b.morton_index, 0);
        assert!(b.data.len() * 8 <= 32 * 1024);
    }
    let joined: Vec<u64> = blocks.iter().flat_map(|b| b.data.iter().copied()).collect();
    assert_eq!(joined, block.data);
    assert_eq!(joined.len(), 8000);
}

#[test]
fn fold_cuts_a_long_vector_into_runs() {
    let mut block = TensorBlock::<u32>::new(vec![20_000], CacheLevel::Memory).unwrap();
    for i in 0..20_000usize {
        block.set(&[i], i as u32).unwrap();
    }
    let blocks = block.fold(CacheLevel::L1).unwrap();
    let lens: Vec<usize> = blocks.iter().map(|b| b.data.len()).collect();
    assert_eq!(lens, vec![8192, 8192, 3616]);
    assert_eq!(blocks[2].data[0], 16_384);
}

#[test]
fn cloned_block_is_equal() {
    let mut block = TensorBlock::<u32>::new(vec![2, 2], CacheLevel::L3).unwrap();
    block.set(&[0, 1], 4).unwrap();
    let copy = block.clone();
    assert_eq!(copy.data, block.data);
    assert_eq!(copy.dimensions, block.dimensions);
    assert_eq!(copy.morton_index, block.morton_index);
    assert_eq!(copy.alignment, block.alignment);
}

#[test]
fn new_block_holds_default_values() {
    let block = TensorBlock::<f64>::new(vec![4, 4], CacheLevel::L1).unwrap();
    assert_eq!(block.data.len(), 16);
    assert!(block.data.iter().all(|&x| x == 0.0));
    assert_eq!(block.alignment, 64);
    assert_eq!(block.morton_index, 48);
    let mut folder = TensorFolder::<u32>::new(CacheConfig::default());
    let t = folder.allocate_tensor(vec![3, 5]).unwrap();
    assert!(t.data.iter().all(|&x| x == 0));
}
