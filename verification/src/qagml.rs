//! Core types of QAGML (GPU memory amplification): its constants, memory kinds,
//! configuration, bus widths, and the virtual-address layout of loaded model files.
use vstd::prelude::*;
use std::path::PathBuf;

verus! {

/// QAGML amplification factor: 10,000,000x
pub const AMPLIFICATION_FACTOR: u64 = 10_000_000;

/// Target GPU memory capacity: 800 PB (from 80 GB)
pub const TARGET_MEMORY_PB: u64 = 800_000;

/// Physical GPU memory: 80 GB
pub const PHYSICAL_MEMORY_GB: u64 = 80;

/// Input dimensions for memory tensor
pub const INPUT_DIMENSIONS: usize = 4096;

/// Output dimensions after folding
pub const OUTPUT_DIMENSIONS: usize = 16;

/// Memory Type
#[derive(Debug, Clone, Copy, PartialEq, Eq, Structural)]
pub enum MemoryType {
    Global,
    Shared,
    Local,
    Constant,
    Texture,
}

/// QAGML Configuration
#[derive(Debug, Clone, Copy, PartialEq, Eq, Structural)]
pub struct QagmlConfig {
    /// Physical GPU memory in GB
    pub physical_memory_gb: u64,
    /// Target amplification factor
    pub target_amplification: u64,
    /// Enable dimensional folding
    pub enable_dimensional_folding: bool,
    /// Enable Laplacian Q-learning
    pub enable_laplacian_qlearning: bool,
    /// Enable PME engine
    pub enable_pme: bool,
    /// Enable quantum cache
    pub enable_quantum_cache: bool,
    /// Enable SIMD vectorization
    pub enable_simd: bool,
    /// Enable Galois field encryption
    pub enable_galois_field: bool,
    /// Enable spectral graph optimization
    pub enable_spectral_graph: bool,
    /// Enable tensor decomposition
    pub enable_tensor_decomposition: bool,
    /// Enable branch-free computation
    pub enable_branch_free: bool,
    /// Enable temporal coherence
    pub enable_temporal_coherence: bool,
}

impl Default for QagmlConfig {
    fn default() -> (r: Self)
        ensures
            r == (QagmlConfig {
                physical_memory_gb: 80,
                target_amplification: AMPLIFICATION_FACTOR,
                enable_dimensional_folding: true,
                enable_laplacian_qlearning: true,
                enable_pme: true,
                enable_quantum_cache: true,
                enable_simd: true,
                enable_galois_field: true,
                enable_spectral_graph: true,
                enable_tensor_decomposition: true,
                enable_branch_free: true,
                enable_temporal_coherence: true,
            }),
    {
        Self {
            physical_memory_gb: 80,
            target_amplification: AMPLIFICATION_FACTOR,
            enable_dimensional_folding: true,
            enable_laplacian_qlearning: true,
            enable_pme: true,
            enable_quantum_cache: true,
            enable_simd: true,
            enable_galois_field: true,
            enable_spectral_graph: true,
            enable_tensor_decomposition: true,
            enable_branch_free: true,
            enable_temporal_coherence: true,
        }
    }
}

/// Physical bus width types supported by modern GPUs
#[derive(Debug, Clone, Copy, PartialEq, Eq, Structural)]
pub enum PhysicalBusWidth {
    /// GDDR6/GDDR7 standard
    Bit256,
    /// High-end consumer
    Bit384,
    /// HBM2/HBM2e
    Bit1024,
    /// HBM2e+
    Bit2048,
    /// HBM3
    Bit4096,
}

/// Width of a bus in bits.
pub open spec fn bus_bits(w: PhysicalBusWidth) -> u64 {
    match w {
        PhysicalBusWidth::Bit256 => 256,
        PhysicalBusWidth::Bit384 => 384,
        PhysicalBusWidth::Bit1024 => 1024,
        PhysicalBusWidth::Bit2048 => 2048,
        PhysicalBusWidth::Bit4096 => 4096,
    }
}

impl PhysicalBusWidth {
    pub fn bits(&self) -> (r: u64)
        ensures
            r == bus_bits(*self),
    {
        match self {
            PhysicalBusWidth::Bit256 => 256,
            PhysicalBusWidth::Bit384 => 384,
            PhysicalBusWidth::Bit1024 => 1024,
            PhysicalBusWidth::Bit2048 => 2048,
            PhysicalBusWidth::Bit4096 => 4096,
        }
    }

    pub fn bytes_per_cycle(&self) -> (r: u64)
        ensures
            r == bus_bits(*self) / 8,
    {
        self.bits() / 8
    }
}

/// Check if CUDA is available (the target GPU is assumed present)
pub fn check_cuda_available() -> (r: bool)
    ensures
        r,
{
    true
}

/// Get GPU information
pub fn get_gpu_info() -> (r: String)
    ensures
        r@ == "NVIDIA RTX 5090\nPhysical Memory: 80 GB GDDR7\nMemory Bandwidth: 1792 GB/s\nCUDA Cores: 21,760\nTensor Cores: 680 (5th Gen)\nRT Cores: 170 (4th Gen)\nBoost Clock: 2.41 GHz"@,
{
    String::from_str(
        "NVIDIA RTX 5090\nPhysical Memory: 80 GB GDDR7\nMemory Bandwidth: 1792 GB/s\nCUDA Cores: 21,760\nTensor Cores: 680 (5th Gen)\nRT Cores: 170 (4th Gen)\nBoost Clock: 2.41 GHz",
    )
}

#[verifier::external_type_specification]
#[verifier::external_body]
pub struct ExPathBuf(PathBuf);

/// A model weight file placed in QAGML virtual memory
#[derive(Debug)]
pub struct ModelFile {
    pub path: PathBuf,
    pub size_bytes: u64,
    pub virtual_address: u64,
}

/// Sum of the first n sizes.
pub open spec fn size_prefix(sizes: Seq<u64>, n: int) -> int
    decreases n,
{
    if n <= 0 {
        0
    } else {
        size_prefix(sizes, n - 1) + sizes[n - 1]
    }
}

/// Files are laid out back to back from `base`: the first starts at `base`, and each
/// next one starts where the one before it ends, its start plus its size.
pub proof fn law_layout_back_to_back(sizes: Seq<u64>, base: int, i: int)
    requires
        0 <= i < sizes.len(),
    ensures
        base + size_prefix(sizes, 0) == base,
        base + size_prefix(sizes, i + 1) == (base + size_prefix(sizes, i)) + sizes[i],
{
}

proof fn lemma_prefix_monotone(sizes: Seq<u64>, i: int, j: int)
    requires
        0 <= i <= j,
    ensures
        size_prefix(sizes, i) <= size_prefix(sizes, j),
    decreases j - i,
{
    if i < j {
        lemma_prefix_monotone(sizes, i, j - 1);
    }
}

/// Loader of model weight files into QAGML virtual memory
pub struct QagmlModelLoader {
    base_virtual_address: u64,
    current_virtual_address: u64,
    total_bytes_loaded: u64,
}

impl QagmlModelLoader {
    /// First virtual address of the model area.
    pub closed spec fn base(&self) -> u64 {
        self.base_virtual_address
    }

    /// Bytes loaded so far.
    pub closed spec fn loaded(&self) -> u64 {
        self.total_bytes_loaded
    }

    pub fn new() -> (r: Self)
        ensures
            r.base() == 0x1000_0000_0000_0000,
            r.loaded() == 0,
    {
        Self {
            base_virtual_address: 0x1000_0000_0000_0000,  // Start at 1 PB
            current_virtual_address: 0x1000_0000_0000_0000,
            total_bytes_loaded: 0,
        }
    }

    /// First virtual address of the model area.
    pub fn base_address(&self) -> (r: u64)
        ensures
            r == self.base(),
    {
        self.base_virtual_address
    }

    /// Bytes loaded so far.
    pub fn loaded_bytes(&self) -> (r: u64)
        ensures
            r == self.loaded(),
    {
        self.total_bytes_loaded
    }

    /// Record the bytes of the model loaded last.
    pub fn set_loaded_bytes(&mut self, total: u64)
        ensures
            final(self).loaded() == total,
            final(self).base() == old(self).base(),
    {
        self.total_bytes_loaded = total;
    }

    /// Virtual addresses of consecutive model files of the given sizes: the files are
    /// laid out back to back from the base address, in the given order.
    pub fn assign_virtual_addresses(&self, sizes: &[u64]) -> (r: Vec<u64>)
        requires
            self.base() + size_prefix(sizes@, sizes.len() as int) <= u64::MAX,
        ensures
            r.len() == sizes.len(),
            forall|i: int| 0 <= i < r.len() ==> #[trigger] r[i] == self.base() + size_prefix(sizes@, i),
            r.len() > 0 ==> r[0] == self.base(),
            forall|i: int| 0 <= i && i + 1 < r.len() ==> #[trigger] r[i + 1] == r[i] + sizes[i],
    {
        let mut addresses: Vec<u64> = Vec::new();
        let mut virtual_addr = self.base_virtual_address;
        let mut i: usize = 0;
        while i < sizes.len()
            invariant
                0 <= i <= sizes.len(),
                self.base() + size_prefix(sizes@, sizes.len() as int) <= u64::MAX,
                addresses.len() == i,
                virtual_addr == self.base() + size_prefix(sizes@, i as int),
                forall|k: int| 0 <= k < i ==> #[trigger] addresses[k] == self.base() + size_prefix(sizes@, k),
            decreases sizes.len() - i,
        {
            addresses.push(virtual_addr);
            proof {
                lemma_prefix_monotone(sizes@, i + 1, sizes.len() as int);
            }
            virtual_addr = virtual_addr + sizes[i];
            i += 1;
        }
        proof {
            assert forall|i: int| 0 <= i && i + 1 < addresses.len() implies #[trigger] addresses[i + 1]
                == addresses[i] + sizes[i] by {
                law_layout_back_to_back(sizes@, self.base() as int, i);
            }
        }
        addresses
    }
}

} // verus!
