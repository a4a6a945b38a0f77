//! Errors of the index.
use vstd::prelude::*;

verus! {

/// Why indexing a document was refused.
#[derive(Debug, Clone, Copy, PartialEq, Eq, Structural)]
pub enum IndexError {
    /// Indexing was asked to run on zero workers.
    ZeroThreads,
}

} // verus!
