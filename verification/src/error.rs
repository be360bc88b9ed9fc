//! The ways in which a build or evaluation step can fail.

use vstd::prelude::*;

verus! {

/// Why an operation of the engine was refused.
#[derive(Clone, Copy, Debug, PartialEq, Eq, Structural)]
pub enum EngineError {
    /// A coordinate does not fall inside the grid.
    OutOfBounds,
    /// A graph operation named a vertex id that was never inserted.
    UnknownVertex,
    /// A value was asked of something that has none: a bare range in a
    /// formula, or a range vertex.
    UnsupportedOperation,
    /// A formula calls a function that the engine does not know.
    UnknownFunction,
    /// A function was given an argument it cannot reduce.
    UnsupportedArgument,
    /// A formula cell was read before it was ever evaluated.
    MissingCachedValue,
}

} // verus!
