//! Ordering of tasks with dependencies, where tasks that share a group stay together.
pub mod error;
pub mod kahn;
pub mod order_laws;
pub mod ordering;
pub mod positions;
pub mod registry;

pub use error::TopologicalError;
pub use ordering::double_topological_sort;
pub use registry::{DependentSort, Group, Task};
pub mod laws;
pub mod mermaid;
