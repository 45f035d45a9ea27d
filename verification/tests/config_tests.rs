use symmetrix::config::{MemoryStrategy, SymmetrixConfig, SymmetrixUaoQtcamConfig};
use symmetrix::control_plane::{ServerConfig, ServerStats, VXLAN_HEADER_SIZE, VXLAN_PORT};
use symmetrix::galois::MERSENNE_61;
use symmetrix::qagml::{
    check_cuda_available, get_gpu_info, PhysicalBusWidth, QagmlConfig, QagmlModelLoader,
    AMPLIFICATION_FACTOR, INPUT_DIMENSIONS, OUTPUT_DIMENSIONS, PHYSICAL_MEMORY_GB, TARGET_MEMORY_PB,
};
use symmetrix::qanban;

#[test]
fn test_cuda_available() {
    assert!(check_cuda_available());
}

#[test]
fn lib_test_amplification_factor() {
    assert_eq!(AMPLIFICATION_FACTOR, 10_000_000);
    assert_eq!(TARGET_MEMORY_PB, 800_000);
    assert_eq!(PHYSICAL_MEMORY_GB, 80);
}

#[test]
fn test_config_default() {
    let config = QagmlConfig::default();
    assert_eq!(config.physical_memory_gb, 80);
    assert_eq!(config.target_amplification, AMPLIFICATION_FACTOR);
    assert!(config.enable_dimensional_folding);
    assert!(config.enable_laplacian_qlearning);
    assert!(config.enable_pme);
    assert!(config.enable_quantum_cache);
    assert!(config.enable_simd);
}

#[test]
fn test_version() {
    assert!(!qanban::VERSION.is_empty());
}

#[test]
fn qanban_lib_test_amplification_factor() {
    assert_eq!(qanban::AMPLIFICATION_FACTOR, 1_000_000);
}

#[test]
fn test_server_config_defaults() {
    let config = ServerConfig {
        vxlan_bind: "0.0.0.0".to_string(),
        vxlan_port: 4789,
        http_bind: "0.0.0.0".to_string(),
        http_port: 8080,
        cache_size: 256 * 1024 * 1024,
        max_connections: 10000,
    };

    assert_eq!(config.vxlan_port, 4789);
    assert_eq!(config.http_port, 8080);
    assert_eq!(config.cache_size, 256 * 1024 * 1024);
    assert_eq!(config.max_connections, 10000);
}

#[test]
fn test_vxlan_header_constants() {
    // VXLAN standard port
    assert_eq!(VXLAN_PORT, 4789);

    // VXLAN header size (8 bytes)
    assert_eq!(VXLAN_HEADER_SIZE, 8);
}

#[test]
fn lib_test_default_config() {
    let config = SymmetrixConfig::default();
    assert_eq!(config.max_containers, 5000);
    assert!(config.enable_sheaf_optimization);
    assert!(config.enable_quantum_matrix);
}

#[test]
fn test_initialization() {
    let _config = SymmetrixConfig::default();
}

#[test]
fn uao_qtcam_integration_test_default_config() {
    let config = SymmetrixUaoQtcamConfig::default();
    assert!(config.adaptive_phase);
    assert_eq!(config.max_cached_routes, 1_000_000);
    assert!(config.enable_sheaf_optimization);
    assert!(config.enable_tensor_folding);
    assert!(config.enable_recursive_amplification);
    // Default 4 GB physical storage
    assert_eq!(config.physical_weight_storage_bytes, 4 * 1024 * 1024 * 1024);
}

#[test]
fn symmetrix_config_remaining_defaults() {
    let config = SymmetrixConfig::default();
    assert_eq!(config.tensor_cache_size, 64 * 1024 * 1024);
    assert_eq!(config.galois_prime, MERSENNE_61);
    assert_eq!(config.memory_strategy, MemoryStrategy::TensorFolded);
}

#[test]
fn qagml_config_remaining_defaults() {
    let config = QagmlConfig::default();
    assert!(config.enable_galois_field);
    assert!(config.enable_spectral_graph);
    assert!(config.enable_tensor_decomposition);
    assert!(config.enable_branch_free);
    assert!(config.enable_temporal_coherence);
    assert_eq!(INPUT_DIMENSIONS, 4096);
    assert_eq!(OUTPUT_DIMENSIONS, 16);
}

#[test]
fn qanban_config_defaults() {
    let config = qanban::QanbanConfig::default();
    assert_eq!(config.physical_bandwidth_gbps, 100);
    assert_eq!(config.target_amplification, 1_000_000);
    assert!(config.enable_dimensional_folding);
    assert!(config.enable_simd);
    assert_eq!(qanban::VERSION, "0.1.0");
    assert_eq!(qanban::INPUT_DIMENSIONS, 1024);
    assert_eq!(qanban::OUTPUT_DIMENSIONS, 10);
}

#[test]
fn server_defaults() {
    let config = ServerConfig::default();
    assert_eq!(config.vxlan_bind, "0.0.0.0");
    assert_eq!(config.http_bind, "0.0.0.0");
    assert_eq!(config.vxlan_port, 4789);
    assert_eq!(config.http_port, 8080);
    assert_eq!(config.cache_size, 256 * 1024 * 1024);
    assert_eq!(config.max_connections, 10000);
    let stats = ServerStats::default();
    assert_eq!(stats.commands_processed, 0);
    assert_eq!(stats.start_time, 0);
}

#[test]
fn bus_widths() {
    assert_eq!(PhysicalBusWidth::Bit256.bits(), 256);
    assert_eq!(PhysicalBusWidth::Bit384.bits(), 384);
    assert_eq!(PhysicalBusWidth::Bit1024.bits(), 1024);
    assert_eq!(PhysicalBusWidth::Bit2048.bits(), 2048);
    assert_eq!(PhysicalBusWidth::Bit4096.bits(), 4096);
    assert_eq!(PhysicalBusWidth::Bit256.bytes_per_cycle(), 32);
    assert_eq!(PhysicalBusWidth::Bit4096.bytes_per_cycle(), 512);
}

#[test]
fn gpu_info_text() {
    let info = get_gpu_info();
    assert!(info.starts_with("NVIDIA RTX 5090\n"));
    assert!(info.contains("Physical Memory: 80 GB GDDR7"));
    assert!(info.ends_with("Boost Clock: 2.41 GHz"));
}

#[test]
fn model_files_are_laid_out_back_to_back() {
    let loader = QagmlModelLoader::new();
    let addresses = loader.assign_virtual_addresses(&[100, 4096, 7]);
    assert_eq!(
        addresses,
        vec![0x1000_0000_0000_0000, 0x1000_0000_0000_0064, 0x1000_0000_0000_1064]
    );
    assert!(loader.assign_virtual_addresses(&[]).is_empty());
}
