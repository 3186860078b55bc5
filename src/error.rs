//! Errors raised while resolving task and group references.
use vstd::prelude::*;

verus! {

/// Why a registry could not be ordered.
#[derive(Debug, Clone)]
pub enum TopologicalError {
    /// A task depends on an identity that no task of the registry has.
    MissingTask {
        /// The identity that could not be resolved.
        task: u64,
    },
    /// A task names a group label that the label table does not hold.
    MissingGroup {
        /// The label that could not be resolved.
        group: String,
    },
}

} // verus!
