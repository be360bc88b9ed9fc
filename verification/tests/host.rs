use wasm_interpreter::address::{CellAddress, CellReferenceType};
use wasm_interpreter::ast::Ast;
use wasm_interpreter::host::{convert_ast, reference_type_by_js_string, HostAst, HostCellAddress};

fn host_address(col: i32, row: i32, kind: &str) -> HostCellAddress {
    HostCellAddress { col, row, kind: kind.to_string() }
}

fn host_range(start: HostCellAddress, end: HostCellAddress) -> HostAst {
    HostAst {
        kind: "CELL_RANGE".to_string(),
        start: Some(start),
        end: Some(end),
        procedure_name: None,
        args: Vec::new(),
    }
}

fn host_call(name: &str, args: Vec<HostAst>) -> HostAst {
    HostAst {
        kind: "FUNCTION_CALL".to_string(),
        start: None,
        end: None,
        procedure_name: Some(name.to_string()),
        args,
    }
}

fn as_range(ast: &Ast) -> (CellAddress, CellAddress) {
    match ast {
        Ast::CellRangeAst { start, end } => (*start, *end),
        _ => panic!("not a range"),
    }
}

#[test]
fn reference_types_are_read_by_name() {
    let names = [
        ("CELL_REFERENCE", CellReferenceType::Relative),
        ("CELL_REFERENCE_ABSOLUTE", CellReferenceType::Absolute),
        ("CELL_REFERENCE_ABSOLUTE_COL", CellReferenceType::AbsoluteCol),
        ("CELL_REFERENCE_ABSOLUTE_ROW", CellReferenceType::AbsoluteRow),
    ];
    for (name, expected) in names {
        assert_eq!(reference_type_by_js_string(&name.to_string()), Some(expected));
    }
    for name in ["", "CELL", "cell_reference", "CELL_REFERENCE_ABSOLUTE_", "CELL_REFERENCE "] {
        assert_eq!(reference_type_by_js_string(&name.to_string()), None);
    }
}

#[test]
fn a_range_is_converted_with_the_type_of_its_start() {
    let host = host_range(
        host_address(1, 2, "CELL_REFERENCE_ABSOLUTE_COL"),
        host_address(3, 4, "CELL_REFERENCE"),
    );
    let ast = convert_ast(&host).unwrap();
    let (start, end) = as_range(&ast);
    assert_eq!(start, CellAddress { col: 1, row: 2, kind: CellReferenceType::AbsoluteCol });
    assert_eq!(end, CellAddress { col: 3, row: 4, kind: CellReferenceType::AbsoluteCol });
}

#[test]
fn a_call_is_converted_with_its_arguments_in_order() {
    let host = host_call(
        "MEDIAN",
        vec![
            host_range(host_address(0, 0, "CELL_REFERENCE"), host_address(0, 1, "CELL_REFERENCE")),
            host_call("INNER", vec![]),
            host_range(
                host_address(5, 6, "CELL_REFERENCE_ABSOLUTE"),
                host_address(7, 8, "CELL_REFERENCE_ABSOLUTE"),
            ),
        ],
    );
    match convert_ast(&host).unwrap() {
        Ast::ProcedureAst { procedure_name, args } => {
            assert_eq!(procedure_name, "MEDIAN");
            assert_eq!(args.len(), 3);
            assert_eq!(as_range(&args[0]).1.row, 1);
            match &args[1] {
                Ast::ProcedureAst { procedure_name, args } => {
                    assert_eq!(procedure_name, "INNER");
                    assert!(args.is_empty());
                }
                _ => panic!("not a call"),
            }
            assert_eq!(
                as_range(&args[2]).0,
                CellAddress { col: 5, row: 6, kind: CellReferenceType::Absolute }
            );
        }
        _ => panic!("not a call"),
    }
}

#[test]
fn what_is_neither_a_range_nor_a_call_is_not_converted() {
    let mut host = host_call("MEDIAN", vec![]);
    host.kind = "NUMBER".to_string();
    assert!(convert_ast(&host).is_none());
    host.kind = "".to_string();
    assert!(convert_ast(&host).is_none());
}

#[test]
fn a_node_that_lacks_what_its_kind_calls_for_is_not_converted() {
    let mut range = host_range(host_address(0, 0, "CELL_REFERENCE"), host_address(0, 1, "X"));
    assert!(convert_ast(&range).is_some());
    range.end = None;
    assert!(convert_ast(&range).is_none());
    let mut range = host_range(host_address(0, 0, "X"), host_address(0, 1, "CELL_REFERENCE"));
    assert!(convert_ast(&range).is_none());
    range.start = None;
    assert!(convert_ast(&range).is_none());
    let mut call = host_call("MEDIAN", vec![]);
    call.procedure_name = None;
    assert!(convert_ast(&call).is_none());
}

#[test]
fn a_tree_with_a_node_that_cannot_be_converted_is_not_converted() {
    let mut bad = host_call("X", vec![]);
    bad.kind = "NUMBER".to_string();
    let host = host_call(
        "MEDIAN",
        vec![
            host_range(host_address(0, 0, "CELL_REFERENCE"), host_address(0, 1, "CELL_REFERENCE")),
            host_call("INNER", vec![bad]),
        ],
    );
    assert!(convert_ast(&host).is_none());
}
