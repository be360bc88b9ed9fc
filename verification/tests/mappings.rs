use wasm_interpreter::address::SimpleCellAddress;
use wasm_interpreter::address_mapping::build_array_address_mapping;
use wasm_interpreter::error::EngineError;
use wasm_interpreter::graph::Graph;
use wasm_interpreter::range_mapping::buildRangeMapping;
use wasm_interpreter::value::CellValue;
use wasm_interpreter::vertex::{EmptyCellVertex, RangeVertex, ValueCellVertex, Vertex};

#[test]
fn it_works3() {
    let mut graph = Graph::build();
    let empty = EmptyCellVertex { color: 0, vertex_id: 0 };
    graph.add_node(Vertex::EmptyCell(empty));
    let mut address_mapping = build_array_address_mapping(4, 4, empty.vertex_id);
    let some_address = SimpleCellAddress { col: 0, row: 0 };
    assert_eq!(address_mapping.get_cell_value(&graph, &some_address), Ok(CellValue::Number(0)));

    let other_address = SimpleCellAddress { col: 1, row: 0 };
    let other_node = ValueCellVertex { color: 0, vertex_id: 1, cell_value: CellValue::Number(42) };
    graph.add_node(Vertex::ValueCell(other_node));
    address_mapping.set_cell(&other_address, 1).unwrap();
    assert_eq!(address_mapping.get_cell_value(&graph, &other_address), Ok(CellValue::Number(42)));

    address_mapping.set_cell_value(&mut graph, &other_address, CellValue::Number(13)).unwrap();
    assert_eq!(address_mapping.get_cell_value(&graph, &other_address), Ok(CellValue::Number(13)));
}

#[test]
fn range_mapping() {
    let mut range_mapping = buildRangeMapping();
    let node = RangeVertex {
        color: 0,
        vertex_id: 42,
        start: SimpleCellAddress { col: 0, row: 0 },
        end: SimpleCellAddress { col: 0, row: 1 },
    };
    range_mapping.set_range(node);
    assert_eq!(
        range_mapping
            .get_range(&SimpleCellAddress { col: 0, row: 0 }, &SimpleCellAddress { col: 0, row: 1 })
            .get_vertex_id(),
        42
    )
}

#[test]
fn range_mapping_tells_rectangles_apart() {
    let mut ranges = buildRangeMapping();
    let corners = [
        (0, 0, 0, 1),
        (0, 0, 1, 0),
        (0, 1, 0, 0),
        (1, 0, 0, 0),
        (-1, 0, 0, 1),
        (0, 0, 0, -1),
        (i32::MAX, i32::MIN, i32::MIN, i32::MAX),
        (i32::MIN, i32::MAX, i32::MAX, i32::MIN),
    ];
    for (k, (a, b, c, d)) in corners.iter().enumerate() {
        ranges.set_range(RangeVertex {
            color: 0,
            vertex_id: k as i32,
            start: SimpleCellAddress { col: *a, row: *b },
            end: SimpleCellAddress { col: *c, row: *d },
        });
    }
    for (k, (a, b, c, d)) in corners.iter().enumerate() {
        let found = ranges.maybe_get_range(
            &SimpleCellAddress { col: *a, row: *b },
            &SimpleCellAddress { col: *c, row: *d },
        );
        assert_eq!(found.unwrap().vertex_id, k as i32);
    }
    let missing = ranges
        .maybe_get_range(&SimpleCellAddress { col: 1, row: 1 }, &SimpleCellAddress { col: 1, row: 1 });
    assert!(missing.is_none());
}

#[test]
fn range_mapping_replaces_the_range_of_a_rectangle() {
    let mut ranges = buildRangeMapping();
    let start = SimpleCellAddress { col: 2, row: 3 };
    let end = SimpleCellAddress { col: 4, row: 5 };
    assert!(ranges.maybe_get_range(&start, &end).is_none());
    ranges.set_range(RangeVertex { color: 0, vertex_id: 7, start, end });
    ranges.set_range(RangeVertex { color: 0, vertex_id: 8, start, end });
    assert_eq!(ranges.get_range(&start, &end).vertex_id, 8);
    assert_eq!(ranges.get_range(&start, &end).start, start);
    assert_eq!(ranges.get_range(&start, &end).end, end);
}

#[test]
fn set_cell_then_get_cell_gives_the_vertex_back_at_every_address() {
    let mut mapping = build_array_address_mapping(3, 2, 0);
    assert_eq!(mapping.default_empty(), 0);
    for row in 0..2 {
        for col in 0..3 {
            let address = SimpleCellAddress { col, row };
            assert_eq!(mapping.get_cell(&address), Ok(0));
            assert_eq!(mapping.set_cell(&address, 10 * row + col + 1), Ok(()));
            assert_eq!(mapping.get_cell(&address), Ok(10 * row + col + 1));
        }
    }
    for row in 0..2 {
        for col in 0..3 {
            assert_eq!(mapping.get_cell(&SimpleCellAddress { col, row }), Ok(10 * row + col + 1));
        }
    }
}

#[test]
fn addresses_outside_the_backing_array_are_out_of_bounds() {
    let mut mapping = build_array_address_mapping(4, 4, 0);
    for address in [
        SimpleCellAddress { col: 0, row: 4 },
        SimpleCellAddress { col: -1, row: 0 },
        SimpleCellAddress { col: 0, row: -1 },
        SimpleCellAddress { col: 16, row: 0 },
        SimpleCellAddress { col: i32::MAX, row: i32::MAX },
        SimpleCellAddress { col: i32::MIN, row: i32::MIN },
    ] {
        assert_eq!(mapping.get_cell(&address), Err(EngineError::OutOfBounds));
        assert_eq!(mapping.set_cell(&address, 5), Err(EngineError::OutOfBounds));
    }
    for row in 0..4 {
        for col in 0..4 {
            assert_eq!(mapping.get_cell(&SimpleCellAddress { col, row }), Ok(0));
        }
    }
}

#[test]
fn the_flat_index_decides_what_is_in_bounds() {
    // the position is row * width + col: in a grid 4 wide, (5, 0) is (1, 1)
    let mut mapping = build_array_address_mapping(4, 4, 0);
    assert_eq!(mapping.set_cell(&SimpleCellAddress { col: 5, row: 0 }, 9), Ok(()));
    assert_eq!(mapping.get_cell(&SimpleCellAddress { col: 1, row: 1 }), Ok(9));
    assert_eq!(mapping.get_cell(&SimpleCellAddress { col: -3, row: 2 }), Ok(9));
}

#[test]
fn a_grid_without_cells_has_nothing_in_bounds() {
    let mapping = build_array_address_mapping(0, 5, 0);
    assert_eq!(mapping.get_cell(&SimpleCellAddress { col: 0, row: 0 }), Err(EngineError::OutOfBounds));
    let mapping = build_array_address_mapping(5, 0, 0);
    assert_eq!(mapping.get_cell(&SimpleCellAddress { col: 0, row: 0 }), Err(EngineError::OutOfBounds));
}

#[test]
fn values_are_read_and_written_through_the_graph() {
    let mut graph = Graph::build();
    graph.add_node(Vertex::EmptyCell(EmptyCellVertex { color: 0, vertex_id: 0 }));
    let mut mapping = build_array_address_mapping(2, 2, 0);
    let address = SimpleCellAddress { col: 1, row: 1 };
    // writing to the sentinel changes nothing and does not fail
    assert_eq!(mapping.set_cell_value(&mut graph, &address, CellValue::Number(7)), Ok(()));
    assert_eq!(mapping.get_cell_value(&graph, &address), Ok(CellValue::Number(0)));
    // a vertex that the graph does not know
    assert_eq!(mapping.set_cell(&address, 5), Ok(()));
    assert_eq!(mapping.get_cell_value(&graph, &address), Err(EngineError::UnknownVertex));
    assert_eq!(
        mapping.set_cell_value(&mut graph, &address, CellValue::Number(7)),
        Err(EngineError::UnknownVertex)
    );
    // outside the grid
    let outside = SimpleCellAddress { col: 0, row: 2 };
    assert_eq!(mapping.get_cell_value(&graph, &outside), Err(EngineError::OutOfBounds));
    assert_eq!(
        mapping.set_cell_value(&mut graph, &outside, CellValue::Number(7)),
        Err(EngineError::OutOfBounds)
    );
    // a range has no value
    graph.add_node(Vertex::RangeCell(RangeVertex {
        color: 0,
        vertex_id: 5,
        start: address,
        end: address,
    }));
    assert_eq!(mapping.get_cell_value(&graph, &address), Err(EngineError::UnsupportedOperation));
}
