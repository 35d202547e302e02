use vstd::prelude::*;

verus! {

/// The ways an operation of the engine can fail.
#[derive(Debug, Clone, Copy, PartialEq, Eq, Structural)]
pub enum VMError {
    /// An operand had the wrong tag, or a scalar the wrong type for a column.
    TypeError,
    /// An instruction that this engine does not execute.
    IllegalOpcode,
    /// A table index or a row position out of range.
    IndexError,
    /// An operation needed sole ownership of a column that is shared.
    RefInUse,
}

} // verus!
