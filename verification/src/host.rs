//! The formula tree as the host hands it over, and its conversion into the
//! tree that the engine evaluates.

use crate::address::{CellAddress, CellReferenceType};
use crate::ast::Ast;
use vstd::prelude::*;

verus! {

/// A cell reference as the host describes it: two coordinates and the name
/// of the reference's type.
#[derive(Debug)]
pub struct HostCellAddress {
    pub col: i32,
    pub row: i32,
    pub kind: String,
}

/// A node of the host's formula tree. Its `kind` says which of the other
/// fields carry meaning.
#[derive(Debug)]
pub struct HostAst {
    pub kind: String,
    pub start: Option<HostCellAddress>,
    pub end: Option<HostCellAddress>,
    pub procedure_name: Option<String>,
    pub args: Vec<HostAst>,
}

/// The reference type that the host calls `kind`, if it is one.
pub open spec fn reference_type_of(kind: Seq<char>) -> Option<CellReferenceType> {
    if kind == "CELL_REFERENCE"@ {
        Some(CellReferenceType::Relative)
    } else if kind == "CELL_REFERENCE_ABSOLUTE"@ {
        Some(CellReferenceType::Absolute)
    } else if kind == "CELL_REFERENCE_ABSOLUTE_COL"@ {
        Some(CellReferenceType::AbsoluteCol)
    } else if kind == "CELL_REFERENCE_ABSOLUTE_ROW"@ {
        Some(CellReferenceType::AbsoluteRow)
    } else {
        None
    }
}

/// Whether the host's tree can be converted: it is made of ranges with a
/// known reference type and of function calls, and nothing else.
pub open spec fn convertible(host: HostAst) -> bool
    decreases host,
{
    if host.kind@ == "CELL_RANGE"@ {
        &&& host.start matches Some(start)
        &&& host.end is Some
        &&& reference_type_of(start.kind@) is Some
    } else if host.kind@ == "FUNCTION_CALL"@ {
        &&& host.procedure_name is Some
        &&& forall|i: int| 0 <= i < host.args@.len() ==> convertible(#[trigger] host.args@[i])
    } else {
        false
    }
}

/// Whether `ast` is the host's tree in the engine's terms. Both corners of
/// a range are of the type that the host gives for its start. A function
/// call keeps its name and its arguments in their order.
pub open spec fn converts_to(host: HostAst, ast: Ast) -> bool
    decreases host,
{
    if host.kind@ == "CELL_RANGE"@ {
        &&& host.start matches Some(start)
        &&& host.end matches Some(end)
        &&& reference_type_of(start.kind@) matches Some(kind)
        &&& ast == Ast::CellRangeAst {
            start: CellAddress { col: start.col, row: start.row, kind },
            end: CellAddress { col: end.col, row: end.row, kind },
        }
    } else if host.kind@ == "FUNCTION_CALL"@ {
        &&& host.procedure_name matches Some(name)
        &&& ast matches Ast::ProcedureAst { procedure_name, args }
        &&& procedure_name@ == name@
        &&& args@.len() == host.args@.len()
        &&& forall|i: int|
            0 <= i < host.args@.len() ==> converts_to(#[trigger] host.args@[i], args@[i])
    } else {
        false
    }
}

/// Reads the host's name of a reference type.
pub fn reference_type_by_js_string(kind: &String) -> (res: Option<CellReferenceType>)
    ensures
        res == reference_type_of(kind@),
{
    if *kind == "CELL_REFERENCE".to_owned() {
        Some(CellReferenceType::Relative)
    } else if *kind == "CELL_REFERENCE_ABSOLUTE".to_owned() {
        Some(CellReferenceType::Absolute)
    } else if *kind == "CELL_REFERENCE_ABSOLUTE_COL".to_owned() {
        Some(CellReferenceType::AbsoluteCol)
    } else if *kind == "CELL_REFERENCE_ABSOLUTE_ROW".to_owned() {
        Some(CellReferenceType::AbsoluteRow)
    } else {
        None
    }
}

/// Converts the host's formula tree. A node that is neither a range nor a
/// function call, or that lacks what its kind calls for, cannot be
/// converted, and neither can a tree that holds such a node.
pub fn convert_ast(js_ast: &HostAst) -> (res: Option<Ast>)
    ensures
        match res {
            Some(ast) => convertible(*js_ast) && converts_to(*js_ast, ast),
            None => !convertible(*js_ast),
        },
    decreases js_ast,
{
    if js_ast.kind == "CELL_RANGE".to_owned() {
        match (&js_ast.start, &js_ast.end) {
            (Some(start), Some(end)) => match reference_type_by_js_string(&start.kind) {
                Some(kind) => Some(
                    Ast::CellRangeAst {
                        start: CellAddress { col: start.col, row: start.row, kind },
                        end: CellAddress { col: end.col, row: end.row, kind },
                    },
                ),
                None => None,
            },
            _ => None,
        }
    } else if js_ast.kind == "FUNCTION_CALL".to_owned() {
        let procedure_name = match &js_ast.procedure_name {
            Some(name) => name.clone(),
            None => {
                return None;
            },
        };
        let mut parsed_args: Vec<Ast> = Vec::new();
        let mut i: usize = 0;
        while i < js_ast.args.len()
            invariant
                i <= js_ast.args@.len(),
                parsed_args@.len() == i,
                js_ast.kind@ != "CELL_RANGE"@,
                js_ast.kind@ == "FUNCTION_CALL"@,
                js_ast.procedure_name is Some,
                forall|k: int|
                    0 <= k < i ==> convertible(#[trigger] js_ast.args@[k]) && converts_to(
                        js_ast.args@[k],
                        parsed_args@[k],
                    ),
            decreases js_ast.args@.len() - i,
        {
            match convert_ast(&js_ast.args[i]) {
                Some(arg) => {
                    parsed_args.push(arg);
                },
                None => {
                    return None;
                },
            }
            i += 1;
        }
        Some(Ast::ProcedureAst { procedure_name, args: parsed_args })
    } else {
        None
    }
}

} // verus!
