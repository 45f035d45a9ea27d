//! Resource types and configuration of the sheaf-cohomological resource orchestrator.
use vstd::prelude::*;

verus! {

/// Errors that can occur in sheaf operations
#[derive(Debug)]
pub enum SheafError {
    CohomologyError(String),
    StructureError(String),
    AllocationError(String),
    RestrictionError(String),
}

/// Result type of the sheaf operations
pub type SheafResult<T> = Result<T, SheafError>;

/// Represents a computational resource type
#[derive(Debug, Clone, Copy, PartialEq, Eq, Hash, Structural)]
pub enum ResourceType {
    CPU,
    Memory,
    IO,
    Network,
    Storage,
}

/// Kinds of constraint between computational nodes
#[derive(Debug, Clone, Copy, PartialEq, Eq, Structural)]
pub enum ConstraintType {
    /// Minimum resource requirement
    MinResource(ResourceType),
    /// Maximum resource limit
    MaxResource(ResourceType),
    /// Dependency on another node
    Dependency,
    /// Mutual exclusion
    Exclusion,
}

/// Region identifier in the topological space
pub type RegionId = u64;

/// Configuration structure for sheaf initialization
#[derive(Debug, Clone, Copy, PartialEq, Eq, Structural)]
pub struct SheafInitConfig {
    pub max_containers: usize,
}

} // verus!
