use wasm_interpreter::error::EngineError;
use wasm_interpreter::graph::Graph;
use wasm_interpreter::value::CellValue;
use wasm_interpreter::vertex::{EmptyCellVertex, ValueCellVertex, Vertex};

fn value_vertex(vertex_id: i32, number: i32) -> Vertex {
    Vertex::ValueCell(ValueCellVertex { color: 0, vertex_id, cell_value: CellValue::Number(number) })
}

fn graph_of(ids: &[i32], edges: &[(i32, i32)]) -> Graph {
    let mut graph = Graph::build();
    for id in ids {
        graph.add_node(value_vertex(*id, 0));
    }
    for (from, to) in edges {
        assert_eq!(graph.add_edge_by_ids(from, to), Ok(()));
    }
    graph
}

fn position(order: &[i32], id: i32) -> usize {
    order.iter().position(|x| *x == id).unwrap()
}

#[test]
fn it_works() {
    assert_eq!(2 + 2, 4);
    let mut graph = Graph::build();
    let node1 = Vertex::ValueCell(ValueCellVertex {
        color: 0,
        vertex_id: 1,
        cell_value: CellValue::Number(42),
    });
    let node2 = Vertex::ValueCell(ValueCellVertex {
        color: 0,
        vertex_id: 2,
        cell_value: CellValue::Number(13),
    });
    graph.add_node(node1);
    graph.add_node(node2);
    let graph_node1 = graph.get_node(&1).unwrap();
    assert_eq!(graph_node1.datum.get_vertex_id(), 1)
}

#[test]
fn lib_it_works() {
    assert_eq!(2 + 2, 4);
    let mut graph = Graph::build();
    let node1 = Vertex::ValueCell(ValueCellVertex {
        color: 0,
        vertex_id: 1,
        cell_value: CellValue::Number(42),
    });
    let node2 = Vertex::ValueCell(ValueCellVertex {
        color: 0,
        vertex_id: 2,
        cell_value: CellValue::Number(13),
    });
    graph.add_node(node1);
    graph.add_node(node2);
    let graph_node1id = graph.get_node(&1).unwrap().datum.get_vertex_id();
    assert_eq!(graph_node1id, 1)
}

#[test]
fn it_works2() {
    let mut graph = Graph::build();
    let node1 = Vertex::ValueCell(ValueCellVertex {
        color: 0,
        vertex_id: 1,
        cell_value: CellValue::Number(42),
    });
    let node2 = Vertex::ValueCell(ValueCellVertex {
        color: 0,
        vertex_id: 2,
        cell_value: CellValue::Number(13),
    });
    let node3 = Vertex::ValueCell(ValueCellVertex {
        color: 0,
        vertex_id: 3,
        cell_value: CellValue::Number(13),
    });
    graph.add_node(node1);
    graph.add_node(node2);
    graph.add_node(node3);
    graph.add_edge_by_ids(&1, &2).unwrap();
    assert_eq!(graph.edge_exists(&1, &2), true);
    assert_eq!(graph.edge_exists(&1, &3), false);
}

#[test]
fn lib_it_works2() {
    let mut graph = Graph::build();
    let node1 = Vertex::ValueCell(ValueCellVertex {
        color: 0,
        vertex_id: 1,
        cell_value: CellValue::Number(42),
    });
    let node2 = Vertex::ValueCell(ValueCellVertex {
        color: 0,
        vertex_id: 2,
        cell_value: CellValue::Number(13),
    });
    let node3 = Vertex::ValueCell(ValueCellVertex {
        color: 0,
        vertex_id: 3,
        cell_value: CellValue::Number(13),
    });
    graph.add_node(node1);
    graph.add_node(node2);
    graph.add_node(node3);
    assert_eq!(graph.add_edge_by_ids(&1, &2), Ok(()));
    assert_eq!(graph.edge_exists(&1, &2), true);
    assert_eq!(graph.edge_exists(&1, &3), false);
}

#[test]
fn empty_graph_has_no_vertices_and_sorts_to_nothing() {
    let graph = Graph::build();
    assert_eq!(graph.len(), 0);
    assert!(graph.get_node(&0).is_none());
    assert_eq!(graph.topological_sort(), Vec::<i32>::new());
}

#[test]
fn add_edge_fails_on_unknown_vertices() {
    let mut graph = graph_of(&[1, 2], &[]);
    assert_eq!(graph.add_edge_by_ids(&1, &7), Err(EngineError::UnknownVertex));
    assert_eq!(graph.add_edge_by_ids(&7, &1), Err(EngineError::UnknownVertex));
    assert_eq!(graph.add_edge_by_ids(&8, &9), Err(EngineError::UnknownVertex));
    assert_eq!(graph.edge_exists(&1, &7), false);
    assert_eq!(graph.get_node(&1).unwrap().edges, Vec::<i32>::new());
}

#[test]
fn edge_exists_is_directed_and_false_for_unknown_ids() {
    let graph = graph_of(&[1, 2, 3], &[(1, 2)]);
    assert_eq!(graph.edge_exists(&1, &2), true);
    assert_eq!(graph.edge_exists(&2, &1), false);
    assert_eq!(graph.edge_exists(&2, &3), false);
    assert_eq!(graph.edge_exists(&1, &1), false);
    assert_eq!(graph.edge_exists(&10, &2), false);
    assert_eq!(graph.edge_exists(&1, &20), false);
}

#[test]
fn edges_are_kept_in_order_and_not_deduplicated() {
    let graph = graph_of(&[1, 2, 3], &[(1, 3), (1, 2), (1, 3)]);
    assert_eq!(graph.get_node(&1).unwrap().edges, vec![3, 2, 3]);
    assert_eq!(graph.get_node(&2).unwrap().edges, Vec::<i32>::new());
}

#[test]
fn add_edges_to_appends_one_edge_per_source() {
    let mut graph = graph_of(&[1, 2, 3, 4], &[(1, 2)]);
    assert_eq!(graph.add_edges_to(&vec![1, 3, 1], 4), Ok(()));
    assert_eq!(graph.get_node(&1).unwrap().edges, vec![2, 4, 4]);
    assert_eq!(graph.get_node(&3).unwrap().edges, vec![4]);
    assert_eq!(graph.add_edges_to(&vec![2, 9], 4), Err(EngineError::UnknownVertex));
    assert_eq!(graph.get_node(&2).unwrap().edges, Vec::<i32>::new());
    assert_eq!(graph.add_edges_to(&vec![2], 9), Err(EngineError::UnknownVertex));
    assert_eq!(graph.add_edges_to(&vec![], 9), Ok(()));
}

#[test]
fn inserting_an_id_again_replaces_the_vertex_and_drops_its_edges() {
    let mut graph = graph_of(&[1, 2, 3], &[(1, 2), (2, 3), (3, 1)]);
    graph.add_node(value_vertex(2, 99));
    assert_eq!(graph.len(), 3);
    assert_eq!(graph.get_cell_value(2), Ok(CellValue::Number(99)));
    // the edges that left the old vertex are gone
    assert_eq!(graph.edge_exists(&2, &3), false);
    // the edges that led to it now lead to the new vertex
    assert_eq!(graph.edge_exists(&1, &2), true);
    assert_eq!(graph.edge_exists(&3, &1), true);
    // without the edge 2 -> 3 nothing is left of the cycle
    assert_eq!(graph.topological_sort(), vec![3, 1, 2]);
}

#[test]
fn sort_of_a_chain_follows_the_edges() {
    let graph = graph_of(&[3, 2, 1], &[(1, 2), (2, 3)]);
    assert_eq!(graph.topological_sort(), vec![1, 2, 3]);
}

#[test]
fn sort_of_an_acyclic_graph_is_a_permutation_that_respects_every_edge() {
    let ids = [5, 1, 4, 2, 3, 0, 6];
    let edges = [(5, 1), (5, 4), (1, 2), (4, 2), (2, 3), (0, 3), (0, 6), (4, 6), (5, 3)];
    let graph = graph_of(&ids, &edges);
    let order = graph.topological_sort();
    let mut sorted = order.clone();
    sorted.sort();
    assert_eq!(sorted, vec![0, 1, 2, 3, 4, 5, 6]);
    for (from, to) in edges {
        assert!(position(&order, from) < position(&order, to));
    }
}

#[test]
fn sort_keeps_vertices_without_dependencies_in_insertion_order() {
    let graph = graph_of(&[7, 3, 9, 1], &[]);
    assert_eq!(graph.topological_sort(), vec![7, 3, 9, 1]);
}

#[test]
fn sort_lists_vertices_in_the_order_in_which_they_became_free() {
    // 2 and 1 depend on nothing and are inserted in this order; 2 frees 4, then 1 frees 3
    let graph = graph_of(&[4, 3, 2, 1], &[(1, 3), (2, 4)]);
    assert_eq!(graph.topological_sort(), vec![2, 1, 4, 3]);
    // 1 frees 3 with its second edge and 2 with its third
    let graph = graph_of(&[1, 2, 3], &[(1, 2), (1, 3), (1, 2)]);
    assert_eq!(graph.topological_sort(), vec![1, 3, 2]);
    // 5 waits for the later of its two sources
    let graph = graph_of(&[1, 2, 5, 6, 7], &[(1, 5), (2, 5), (1, 6), (2, 7)]);
    assert_eq!(graph.topological_sort(), vec![1, 2, 6, 5, 7]);
}

#[test]
fn sort_gives_the_same_order_every_time() {
    let ids = [5, 1, 4, 2, 3, 0, 6];
    let edges = [(5, 1), (5, 4), (1, 2), (4, 2), (2, 3), (0, 3), (0, 6), (4, 6), (5, 3)];
    let graph = graph_of(&ids, &edges);
    let first = graph.topological_sort();
    assert_eq!(first, vec![5, 0, 1, 4, 2, 6, 3]);
    for _ in 0..5 {
        assert_eq!(graph.topological_sort(), first);
    }
    assert_eq!(graph_of(&ids, &edges).topological_sort(), first);
}

#[test]
fn sort_counts_parallel_edges() {
    let graph = graph_of(&[1, 2, 3], &[(1, 2), (1, 2), (2, 3), (1, 3)]);
    assert_eq!(graph.topological_sort(), vec![1, 2, 3]);
}

#[test]
fn sort_leaves_out_a_cycle_and_what_depends_on_it() {
    // 1 -> 2 -> 3 -> 2 is a cycle through 2 and 3; 4 depends on 3; 5 and 6 are free
    let ids = [1, 2, 3, 4, 5, 6];
    let edges = [(1, 2), (2, 3), (3, 2), (3, 4), (5, 6), (1, 6)];
    let graph = graph_of(&ids, &edges);
    let order = graph.topological_sort();
    let mut sorted = order.clone();
    sorted.sort();
    assert_eq!(sorted, vec![1, 5, 6]);
    assert!(position(&order, 5) < position(&order, 6));
    assert!(position(&order, 1) < position(&order, 6));
}

#[test]
fn sort_leaves_out_a_vertex_that_depends_on_itself() {
    let graph = graph_of(&[1, 2], &[(1, 1), (1, 2)]);
    assert_eq!(graph.topological_sort(), Vec::<i32>::new());
}

#[test]
fn sort_of_a_graph_that_is_one_cycle_is_empty() {
    let graph = graph_of(&[1, 2, 3], &[(1, 2), (2, 3), (3, 1)]);
    assert_eq!(graph.topological_sort(), Vec::<i32>::new());
}

#[test]
fn graph_reads_and_writes_vertices_by_id() {
    let mut graph = Graph::build();
    graph.add_node(Vertex::EmptyCell(EmptyCellVertex { vertex_id: 0, color: 0 }));
    graph.add_node(value_vertex(1, 42));
    assert_eq!(graph.get_cell_value(0), Ok(CellValue::Number(0)));
    assert_eq!(graph.get_cell_value(1), Ok(CellValue::Number(42)));
    assert_eq!(graph.get_cell_value(2), Err(EngineError::UnknownVertex));
    assert_eq!(graph.set_cell_value(1, CellValue::Text("x".to_string())), Ok(()));
    assert_eq!(graph.get_cell_value(1), Ok(CellValue::Text("x".to_string())));
    // the sentinel stores nothing
    assert_eq!(graph.set_cell_value(0, CellValue::Number(5)), Ok(()));
    assert_eq!(graph.get_cell_value(0), Ok(CellValue::Number(0)));
    assert_eq!(graph.set_cell_value(2, CellValue::Number(5)), Err(EngineError::UnknownVertex));
}
