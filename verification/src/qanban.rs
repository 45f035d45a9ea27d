//! Core types of QANBAN (network bandwidth amplification): its constants,
//! configuration, network state model and the branch-free engine.
use vstd::prelude::*;

verus! {

/// QANBAN version
pub const VERSION: &'static str = "0.1.0";

/// QANBAN amplification factor
pub const AMPLIFICATION_FACTOR: u64 = 1_000_000;

/// Target bandwidth (100 Pbps)
pub const TARGET_BANDWIDTH_GBPS: u64 = 100_000_000;

/// Dimensional folding (1024D -> 10D)
pub const INPUT_DIMENSIONS: usize = 1024;

/// Dimensions after folding
pub const OUTPUT_DIMENSIONS: usize = 10;

/// QANBAN configuration
#[derive(Debug, Clone, Copy, PartialEq, Eq, Structural)]
pub struct QanbanConfig {
    /// Physical bandwidth (Gbps)
    pub physical_bandwidth_gbps: u64,
    /// Target amplification factor
    pub target_amplification: u64,
    /// Enable dimensional folding
    pub enable_dimensional_folding: bool,
    /// Enable Laplacian Q-learning
    pub enable_laplacian_qlearning: bool,
    /// Enable PME approximation
    pub enable_pme: bool,
    /// Enable quantum caching
    pub enable_quantum_cache: bool,
    /// Enable SIMD vectorization
    pub enable_simd: bool,
}

impl Default for QanbanConfig {
    fn default() -> (r: Self)
        ensures
            r == (QanbanConfig {
                physical_bandwidth_gbps: 100,
                target_amplification: 1_000_000,
                enable_dimensional_folding: true,
                enable_laplacian_qlearning: true,
                enable_pme: true,
                enable_quantum_cache: true,
                enable_simd: true,
            }),
    {
        Self {
            physical_bandwidth_gbps: 100,
            target_amplification: 1_000_000,
            enable_dimensional_folding: true,
            enable_laplacian_qlearning: true,
            enable_pme: true,
            enable_quantum_cache: true,
            enable_simd: true,
        }
    }
}

/// Network state representation
#[derive(Debug, Clone, Copy, PartialEq, Eq, Hash, Structural)]
pub struct NetworkState {
    /// Current traffic load (0-100)
    pub load: u8,
    /// Active flows
    pub active_flows: u32,
    /// Congestion level (0-10)
    pub congestion: u8,
}

/// Routing action
#[derive(Debug, Clone, Copy, PartialEq, Eq, Hash, Structural)]
pub enum RoutingAction {
    /// Use primary path
    Primary,
    /// Use secondary path
    Secondary,
    /// Use tertiary path
    Tertiary,
    /// Load balance across all paths
    LoadBalance,
}

/// Branch-Free Computation Engine
pub struct BranchFreeEngine;

impl BranchFreeEngine {
    /// Create new branch-free engine
    pub fn new() -> (r: Self) {
        Self
    }
}

impl Default for BranchFreeEngine {
    fn default() -> (r: Self) {
        Self::new()
    }
}

} // verus!
