use wasm_interpreter::address::SimpleCellAddress;
use wasm_interpreter::ast::Ast;
use wasm_interpreter::error::EngineError;
use wasm_interpreter::value::CellValue;
use wasm_interpreter::vertex::{
    EmptyCellVertex, FormulaCellVertex, RangeVertex, ValueCellVertex, Vertex,
};

fn formula_vertex() -> FormulaCellVertex {
    FormulaCellVertex {
        color: 3,
        vertex_id: 8,
        cached_cell_value: None,
        formula: Ast::NumberAst { value: 12 },
        address: SimpleCellAddress { col: 4, row: 5 },
    }
}

#[test]
fn the_empty_sentinel_reads_zero_and_stores_nothing() {
    let mut empty = EmptyCellVertex { vertex_id: 0, color: 1 };
    assert_eq!(empty.get_vertex_id(), 0);
    assert_eq!(empty.get_color(), 1);
    assert_eq!(empty.get_cell_value(), CellValue::Number(0));
    empty.set_cell_value(CellValue::Number(9));
    assert_eq!(empty.get_cell_value(), CellValue::Number(0));
    let mut vertex = Vertex::EmptyCell(empty);
    vertex.set_cell_value(CellValue::Text("x".to_string()));
    assert_eq!(vertex.get_cell_value(), Ok(CellValue::Number(0)));
    assert_eq!(vertex.get_vertex_id(), 0);
    assert_eq!(vertex.get_color(), 1);
    assert!(vertex.get_formula().is_none());
}

#[test]
fn a_value_cell_holds_what_was_written_last() {
    let mut cell = ValueCellVertex { color: 2, vertex_id: 5, cell_value: CellValue::Number(42) };
    assert_eq!(cell.get_vertex_id(), 5);
    assert_eq!(cell.get_color(), 2);
    assert_eq!(cell.get_cell_value(), CellValue::Number(42));
    cell.set_cell_value(CellValue::Text("abc".to_string()));
    assert_eq!(cell.get_cell_value(), CellValue::Text("abc".to_string()));
    let mut vertex = Vertex::ValueCell(cell);
    vertex.set_cell_value(CellValue::Number(-1));
    assert_eq!(vertex.get_cell_value(), Ok(CellValue::Number(-1)));
    assert_eq!(vertex.get_vertex_id(), 5);
    assert_eq!(vertex.get_color(), 2);
    assert!(vertex.get_formula().is_none());
}

#[test]
fn a_formula_cell_has_no_value_until_one_is_stored() {
    let mut cell = formula_vertex();
    assert_eq!(cell.get_vertex_id(), 8);
    assert_eq!(cell.get_color(), 3);
    assert_eq!(cell.get_cell_value(), Err(EngineError::MissingCachedValue));
    cell.set_cell_value(CellValue::Number(12));
    assert_eq!(cell.get_cell_value(), Ok(CellValue::Number(12)));
    let (formula, address) = cell.get_formula();
    assert!(matches!(formula, Ast::NumberAst { value: 12 }));
    assert_eq!(*address, SimpleCellAddress { col: 4, row: 5 });

    let mut vertex = Vertex::FormulaCell(formula_vertex());
    assert_eq!(vertex.get_cell_value(), Err(EngineError::MissingCachedValue));
    vertex.set_cell_value(CellValue::Number(1));
    vertex.set_cell_value(CellValue::Number(2));
    assert_eq!(vertex.get_cell_value(), Ok(CellValue::Number(2)));
    let (formula, address) = vertex.get_formula().unwrap();
    assert!(matches!(formula, Ast::NumberAst { value: 12 }));
    assert_eq!(*address, SimpleCellAddress { col: 4, row: 5 });
    assert_eq!(vertex.get_vertex_id(), 8);
    assert_eq!(vertex.get_color(), 3);
}

#[test]
fn a_range_has_no_value() {
    let range = RangeVertex {
        color: 4,
        vertex_id: 6,
        start: SimpleCellAddress { col: 0, row: 1 },
        end: SimpleCellAddress { col: 2, row: 3 },
    };
    assert_eq!(range.get_vertex_id(), 6);
    assert_eq!(range.get_color(), 4);
    let mut vertex = Vertex::RangeCell(range);
    assert_eq!(vertex.get_cell_value(), Err(EngineError::UnsupportedOperation));
    vertex.set_cell_value(CellValue::Number(1));
    assert_eq!(vertex.get_cell_value(), Err(EngineError::UnsupportedOperation));
    assert_eq!(vertex.get_vertex_id(), 6);
    assert_eq!(vertex.get_color(), 4);
    assert!(vertex.get_formula().is_none());
}

#[test]
fn a_cloned_value_equals_the_one_it_was_cloned_from() {
    let number = CellValue::Number(i32::MIN);
    let text = CellValue::Text("some text".to_string());
    assert_eq!(number.clone(), number);
    assert_eq!(text.clone(), text);
    assert_ne!(number, text);
    assert_ne!(CellValue::Number(1), CellValue::Number(2));
}
