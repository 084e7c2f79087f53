//! The errors of the library.

use vstd::prelude::*;

verus! {

/// Why an operation was refused.
#[derive(Debug, Clone, Copy, PartialEq, Eq)]
pub enum TensorError {
    /// The shapes of the operands do not fit together, or the result would not fit in memory.
    Shape,
    /// A row index lies outside the table it selects from.
    Index,
}

} // verus!
