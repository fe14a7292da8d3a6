//! Persistence core of a multi-tenant agent-memory platform: a tenant-partitioned
//! memory-record store and a tenant-partitioned property graph.
pub mod enums;
pub mod graph;
pub mod memory;
mod outside;

pub use enums::{ContextFormat, DistanceMetric, MemoryLayer, MemoryType, ReflectionType};
pub use graph::{Direction, GraphEdge, GraphNode, InMemoryGraphStore, Subgraph};
pub use memory::{InMemoryStorage, MemoryRecord, MemoryUpdate, StorageError};
