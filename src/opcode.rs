use vstd::prelude::*;

use crate::column::Scalar;

verus! {

/// One instruction of the virtual machine.
#[derive(Debug)]
pub enum Op {
    /// Pushes a scalar literal.
    Lit(Scalar),
    /// Pushes a shared reference to the table's column at this index.
    Col(usize),
    /// Pops a data column and a mask beneath it, pushes the selected rows. The
    /// operand is reserved for selecting several columns by one mask; one data
    /// column is selected whatever its value.
    Select(usize),
    /// Pops a scalar and a column beneath it, pushes the mask of equal rows.
    FilterEq,
    /// Declared, not executed.
    AddVs,
    /// Declared, not executed.
    DivVs,
}

} // verus!
