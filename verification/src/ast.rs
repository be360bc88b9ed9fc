//! Formula trees.

use crate::address::CellAddress;
use vstd::prelude::*;

verus! {

/// A formula as the parser hands it over.
#[derive(Debug)]
pub enum Ast {
    /// A number literal.
    NumberAst { value: i32 },
    /// A rectangle of cells, given by two of its corners.
    CellRangeAst { start: CellAddress, end: CellAddress },
    /// A call of a named function on a list of arguments.
    ProcedureAst { procedure_name: String, args: Vec<Ast> },
}

} // verus!
