//! Configuration and error types of the Symmetrix runtime and its integrations.
use vstd::prelude::*;
use crate::galois::MERSENNE_61;

verus! {

/// Core error types for the Symmetrix system
#[derive(Debug)]
pub enum SymmetrixError {
    SheafError(String),
    GaloisError(String),
    TensorError(String),
    MatrixError(String),
    VMError(String),
    RuntimeError(String),
    KernelError(String),
}

/// Result type for Symmetrix operations
pub type SymmetrixResult<T> = Result<T, SymmetrixError>;

/// Memory allocation strategy
#[derive(Debug, Clone, Copy, PartialEq, Eq, Structural)]
pub enum MemoryStrategy {
    /// Standard system allocator
    System,
    /// Tensor-folded cache-aware allocator
    TensorFolded,
    /// Galois field compressed allocator
    GaloisCompressed,
}

/// Core configuration for the Symmetrix system
#[derive(Debug, Clone, Copy, PartialEq, Eq, Structural)]
pub struct SymmetrixConfig {
    /// Maximum number of containers to support
    pub max_containers: usize,
    /// Cache size for tensor folding (in bytes)
    pub tensor_cache_size: usize,
    /// Galois field prime for arithmetic operations
    pub galois_prime: u64,
    /// Enable sheaf cohomology optimization
    pub enable_sheaf_optimization: bool,
    /// Enable quantum-inspired matrix evaluation
    pub enable_quantum_matrix: bool,
    /// Memory allocation strategy
    pub memory_strategy: MemoryStrategy,
}

impl Default for SymmetrixConfig {
    fn default() -> (r: Self)
        ensures
            r == (SymmetrixConfig {
                max_containers: 5000,
                tensor_cache_size: 67108864,
                galois_prime: MERSENNE_61,
                enable_sheaf_optimization: true,
                enable_quantum_matrix: true,
                memory_strategy: MemoryStrategy::TensorFolded,
            }),
    {
        Self {
            max_containers: 5000,
            tensor_cache_size: 64 * 1024 * 1024,  // 64MB L3 cache
            galois_prime: MERSENNE_61,  // Mersenne prime 2^61 - 1
            enable_sheaf_optimization: true,
            enable_quantum_matrix: true,
            memory_strategy: MemoryStrategy::TensorFolded,
        }
    }
}

/// Errors specific to QANBAN integration
#[derive(Debug)]
pub enum QanbanIntegrationError {
    InitializationError(String),
    PacketProcessingError(String),
    GaloisConversionError(String),
    SheafRoutingError(String),
}

/// Configuration for SYMMETRIX-UAO-QTCAM optimizer with recursive amplification
#[derive(Debug, Clone, Copy, PartialEq, Eq, Structural)]
pub struct SymmetrixUaoQtcamConfig {
    pub adaptive_phase: bool,
    pub max_cached_routes: usize,
    pub enable_sheaf_optimization: bool,
    pub enable_tensor_folding: bool,
    /// Enable recursive amplification cascade (UAO-QTCAM x QAGML)
    pub enable_recursive_amplification: bool,
    /// Physical storage capacity in bytes for model weights
    pub physical_weight_storage_bytes: u64,
}

impl Default for SymmetrixUaoQtcamConfig {
    fn default() -> (r: Self)
        ensures
            r == (SymmetrixUaoQtcamConfig {
                adaptive_phase: true,
                max_cached_routes: 1000000,
                enable_sheaf_optimization: true,
                enable_tensor_folding: true,
                enable_recursive_amplification: true,
                physical_weight_storage_bytes: 4294967296,
            }),
    {
        Self {
            adaptive_phase: true,
            max_cached_routes: 1_000_000,
            enable_sheaf_optimization: true,
            enable_tensor_folding: true,
            enable_recursive_amplification: true,
            // Default: 4 GB physical storage for compressed weights
            physical_weight_storage_bytes: 4 * 1024 * 1024 * 1024,
        }
    }
}

} // verus!
