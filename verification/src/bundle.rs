//! The engine as its host sees it: a grid of cells, the dependencies
//! between them, and the two steps of a recomputation.

use crate::address::SimpleCellAddress;
use crate::address_mapping::{build_array_address_mapping, AddressMappingView, ArrayAddressMapping};
use crate::ast::Ast;
use crate::error::EngineError;
use crate::eval::{
    compute_in_order, evaluate, evaluate_ast, evaluate_in_order, lemma_pass_keeps_structure,
};
use crate::graph::{Graph, GraphView};
use crate::range_mapping::{buildRangeMapping, RangeMapping};
use crate::rect::{
    collect_vertices, lemma_collected_vertices_are_cells, lemma_vertex_scan_error, range_vertices,
    rect_cells,
};
use crate::value::CellValue;
use crate::vertex::{EmptyCellVertex, FormulaCellVertex, RangeVertex, ValueCellVertex, Vertex};
use vstd::prelude::*;

verus! {

/// The engine as a mathematical object.
#[verifier::ext_equal]
pub struct BundleView {
    /// The dependency graph with all the vertices ever created.
    pub graph: GraphView,
    /// Which vertex stands at each position of the grid.
    pub cells: AddressMappingView,
    /// The range vertices, each found by the corners of its rectangle.
    pub ranges: Map<(SimpleCellAddress, SimpleCellAddress), RangeVertex>,
    /// The id that the next vertex will get.
    pub vertex_counter: i32,
    /// The evaluation order, once it was computed.
    pub order: Option<Seq<i32>>,
}

impl BundleView {
    /// The parts fit together: the vertex 0 is the empty sentinel; the graph
    /// holds every vertex that the grid, the ranges and the order speak of,
    /// and no id at or above the counter; the order lists no vertex twice.
    pub open spec fn wf(self) -> bool {
        &&& self.graph.wf()
        &&& self.graph.contains(0)
        &&& self.graph.vertices[0] is EmptyCell
        &&& forall|id: i32| #[trigger] self.graph.contains(id) ==> id < self.vertex_counter
        &&& forall|i: int|
            0 <= i < self.cells.cells.len() ==> self.graph.contains(#[trigger] self.cells.cells[i])
        &&& forall|corners: (SimpleCellAddress, SimpleCellAddress)| #[trigger]
            self.ranges.contains_key(corners) ==> {
                &&& self.graph.contains(self.ranges[corners].vertex_id)
                &&& self.ranges[corners].start == corners.0
                &&& self.ranges[corners].end == corners.1
            }
        &&& match self.order {
            Some(order) => order.no_duplicates() && forall|i: int|
                0 <= i < order.len() ==> self.graph.contains(#[trigger] order[i]),
            None => true,
        }
    }

    /// The engine right after it was built for a grid of `width` columns
    /// and `height` rows: one empty sentinel, with id 0, at every position.
    pub open spec fn create(width: i32, height: i32) -> BundleView {
        BundleView {
            graph: GraphView::empty().add_node(
                Vertex::EmptyCell(EmptyCellVertex { vertex_id: 0, color: 0 }),
            ),
            cells: AddressMappingView {
                width: width as int,
                cells: Seq::new((width * height) as nat, |i: int| 0i32),
            },
            ranges: Map::empty(),
            vertex_counter: 1,
            order: None,
        }
    }

    /// What reading the cell at `address` gives.
    pub open spec fn value_at(self, address: SimpleCellAddress) -> Result<CellValue, EngineError> {
        self.cells.value_at(self.graph, address)
    }

    /// The engine after `vertex`, which carries the next free id, was
    /// created and placed at `address`.
    pub open spec fn place(self, address: SimpleCellAddress, vertex: Vertex) -> BundleView {
        BundleView {
            graph: self.graph.add_node(vertex),
            cells: self.cells.set_cell(address, vertex.id()),
            vertex_counter: (self.vertex_counter + 1) as i32,
            ..self
        }
    }

    /// The engine after the number `value` was entered at `address`.
    pub open spec fn set_number(self, address: SimpleCellAddress, value: i32) -> BundleView {
        self.place(
            address,
            Vertex::ValueCell(
                ValueCellVertex {
                    color: 0,
                    vertex_id: self.vertex_counter,
                    cell_value: CellValue::Number(value),
                },
            ),
        )
    }

    /// The engine after the text `value` was entered at `address`.
    pub open spec fn set_text(self, address: SimpleCellAddress, value: String) -> BundleView {
        self.place(
            address,
            Vertex::ValueCell(
                ValueCellVertex {
                    color: 0,
                    vertex_id: self.vertex_counter,
                    cell_value: CellValue::Text(value),
                },
            ),
        )
    }

    /// The engine after `formula` was entered at `address`. The new cell has
    /// no value until it is evaluated.
    pub open spec fn set_formula(self, address: SimpleCellAddress, formula: Ast) -> BundleView {
        self.place(
            address,
            Vertex::FormulaCell(
                FormulaCellVertex {
                    color: 0,
                    vertex_id: self.vertex_counter,
                    cached_cell_value: None,
                    formula,
                    address,
                },
            ),
        )
    }

    /// The engine after the cell at `to` was made to depend on the cell at
    /// `from`.
    pub open spec fn add_cell_dependency(
        self,
        from: SimpleCellAddress,
        to: SimpleCellAddress,
    ) -> BundleView {
        BundleView {
            graph: self.graph.add_edge(self.cells.cell(from), self.cells.cell(to)),
            ..self
        }
    }

    /// The range that covers all rows of the rectangle from `start` to `end`
    /// but the last, if the rectangle has more than one row and that range
    /// is registered.
    pub open spec fn smaller_range(
        self,
        start: SimpleCellAddress,
        end: SimpleCellAddress,
    ) -> Option<RangeVertex> {
        let shorter = (start, SimpleCellAddress { col: end.col, row: (end.row - 1) as i32 });
        if end.row > start.row && self.ranges.contains_key(shorter) {
            Some(self.ranges[shorter])
        } else {
            None
        }
    }

    /// The first cell of what the smaller range leaves of the rectangle
    /// from `start` to `end`: the last row where there is a smaller range,
    /// the whole rectangle where there is none.
    pub open spec fn rest_start(
        self,
        start: SimpleCellAddress,
        end: SimpleCellAddress,
    ) -> SimpleCellAddress {
        if self.smaller_range(start, end) is Some {
            SimpleCellAddress { col: start.col, row: end.row }
        } else {
            start
        }
    }

    /// The vertex of the rectangle from `start` to `end`: the registered
    /// one, or the one that registering it would create.
    pub open spec fn range_vertex(
        self,
        start: SimpleCellAddress,
        end: SimpleCellAddress,
    ) -> RangeVertex {
        if self.ranges.contains_key((start, end)) {
            self.ranges[(start, end)]
        } else {
            RangeVertex { color: 0, vertex_id: self.vertex_counter, start, end }
        }
    }

    /// The engine after the rectangle from `start` to `end` was given a
    /// range vertex, unless it had one.
    pub open spec fn with_range(self, start: SimpleCellAddress, end: SimpleCellAddress) -> BundleView {
        if self.ranges.contains_key((start, end)) {
            self
        } else {
            BundleView {
                graph: self.graph.add_node(Vertex::RangeCell(self.range_vertex(start, end))),
                ranges: self.ranges.insert((start, end), self.range_vertex(start, end)),
                vertex_counter: (self.vertex_counter + 1) as i32,
                ..self
            }
        }
    }

    /// The vertices of the cells that are wired to the range vertex of the
    /// rectangle from `start` to `end` one by one, or the error that one of
    /// them lies outside the grid.
    pub open spec fn range_sources(
        self,
        start: SimpleCellAddress,
        end: SimpleCellAddress,
    ) -> Result<Seq<i32>, EngineError> {
        collect_vertices(self.cells, rect_cells(self.rest_start(start, end), end))
    }

    /// The engine after the cell at `to` was made to depend on the
    /// rectangle from `start` to `end`: the rectangle has its range vertex;
    /// the smaller range, if there is one, and the cells it leaves are
    /// sources of the range vertex; the range vertex is a source of `to`.
    pub open spec fn add_range_dependency(
        self,
        start: SimpleCellAddress,
        end: SimpleCellAddress,
        to: SimpleCellAddress,
    ) -> BundleView {
        let range = self.range_vertex(start, end).vertex_id;
        let registered = self.with_range(start, end);
        let joined = match self.smaller_range(start, end) {
            Some(smaller) => registered.graph.add_edge(smaller.vertex_id, range),
            None => registered.graph,
        };
        BundleView {
            graph: joined.add_edges_to(self.range_sources(start, end)->Ok_0, range).add_edge(
                range,
                self.cells.cell(to),
            ),
            ..registered
        }
    }

    /// The engine after an evaluation pass, and how the pass ended. Without
    /// an order nothing is evaluated.
    pub open spec fn evaluate_all(self) -> (BundleView, Result<(), EngineError>) {
        match self.order {
            None => (self, Ok(())),
            Some(order) => {
                let pass = evaluate_in_order(self.graph, self.cells, order);
                (BundleView { graph: pass.0, ..self }, pass.1)
            },
        }
    }
}

/// Every cell of a new engine reads as the number 0.
pub proof fn lemma_new_cells_read_zero(width: i32, height: i32, address: SimpleCellAddress)
    requires
        BundleView::create(width, height).cells.in_bounds(address),
    ensures
        BundleView::create(width, height).value_at(address) == Ok::<CellValue, EngineError>(
            CellValue::Number(0),
        ),
{
}

/// A cell at which nothing was entered, so that it still holds the empty
/// sentinel, reads as the number 0, whatever was done elsewhere.
pub proof fn lemma_unoccupied_cell_reads_zero(bundle: BundleView, address: SimpleCellAddress)
    requires
        bundle.wf(),
        bundle.cells.in_bounds(address),
        bundle.cells.cell(address) == 0,
    ensures
        bundle.value_at(address) == Ok::<CellValue, EngineError>(CellValue::Number(0)),
{
}

/// A number entered at a cell is what the cell reads as.
pub proof fn lemma_entered_number_is_read(
    bundle: BundleView,
    address: SimpleCellAddress,
    value: i32,
)
    requires
        bundle.cells.in_bounds(address),
    ensures
        bundle.set_number(address, value).value_at(address) == Ok::<CellValue, EngineError>(
            CellValue::Number(value),
        ),
{
}

/// A text entered at a cell is what the cell reads as.
pub proof fn lemma_entered_text_is_read(
    bundle: BundleView,
    address: SimpleCellAddress,
    value: String,
)
    requires
        bundle.cells.in_bounds(address),
    ensures
        bundle.set_text(address, value).value_at(address) == Ok::<CellValue, EngineError>(
            CellValue::Text(value),
        ),
{
}

/// A formula entered at a cell has no value before it is evaluated.
pub proof fn lemma_entered_formula_has_no_value(
    bundle: BundleView,
    address: SimpleCellAddress,
    formula: Ast,
)
    requires
        bundle.cells.in_bounds(address),
    ensures
        bundle.set_formula(address, formula).value_at(address) == Err::<CellValue, EngineError>(
            EngineError::MissingCachedValue,
        ),
{
}

/// The engine: a grid, its dependency graph, and the order of evaluation.
pub struct InterpretingBundle {
    graph: Graph,
    range_mapping: RangeMapping,
    address_mapping: ArrayAddressMapping,
    default_empty: i32,
    vertex_counter: i32,
    topological_sorting: Option<Vec<i32>>,
}

impl View for InterpretingBundle {
    type V = BundleView;

    closed spec fn view(&self) -> BundleView {
        BundleView {
            graph: self.graph@,
            cells: self.address_mapping@,
            ranges: self.range_mapping@,
            vertex_counter: self.vertex_counter,
            order: match self.topological_sorting {
                Some(order) => Some(order@),
                None => None,
            },
        }
    }
}

impl InterpretingBundle {
    /// The parts of the engine are sound and fit together.
    pub closed spec fn wf(&self) -> bool {
        &&& self.graph.wf()
        &&& self@.wf()
        &&& self.default_empty == 0
    }

    /// A well-formed engine has a well-formed view.
    pub proof fn lemma_view_wf(&self)
        requires
            self.wf(),
        ensures
            self@.wf(),
    {
    }

    /// The dependency graph, for inspection.
    pub fn graph(&self) -> (graph: &Graph)
        requires
            self.wf(),
        ensures
            graph.wf(),
            graph@ == self@.graph,
    {
        &self.graph
    }

    /// The id of the sentinel that stands for the unoccupied cells.
    pub fn default_empty(&self) -> (id: i32)
        requires
            self.wf(),
        ensures
            id == 0,
    {
        self.default_empty
    }

    /// Whether one more vertex can be created.
    pub fn has_room(&self) -> (room: bool)
        ensures
            room == (self@.vertex_counter < i32::MAX),
    {
        self.vertex_counter < i32::MAX
    }

    /// Whether the rectangle from `start` to `end` has a range vertex.
    pub fn has_range(&self, start: &SimpleCellAddress, end: &SimpleCellAddress) -> (found: bool)
        ensures
            found == self@.ranges.contains_key((*start, *end)),
    {
        self.range_mapping.maybe_get_range(start, end).is_some()
    }

    /// The evaluation order, once it was computed.
    pub fn topological_sorting(&self) -> (order: Option<&Vec<i32>>)
        ensures
            match order {
                Some(o) => self@.order == Some(o@),
                None => self@.order.is_none(),
            },
    {
        match &self.topological_sorting {
            Some(order) => Some(order),
            None => None,
        }
    }

    /// The id of the vertex at `address`.
    pub fn get_cell(&self, address: &SimpleCellAddress) -> (res: Result<i32, EngineError>)
        ensures
            match res {
                Ok(id) => self@.cells.in_bounds(*address) && id == self@.cells.cell(*address),
                Err(e) => e == EngineError::OutOfBounds && !self@.cells.in_bounds(*address),
            },
    {
        self.address_mapping.get_cell(address)
    }

    /// Reads the cell at `address`: 0 where nothing was entered, the
    /// literal of a value cell, the last result of a formula cell.
    pub fn get_value(&self, address: &SimpleCellAddress) -> (res: Result<CellValue, EngineError>)
        requires
            self.wf(),
        ensures
            res == self@.value_at(*address),
    {
        self.address_mapping.get_cell_value(&self.graph, address)
    }

    /// Creates `vertex` and places it at `address`.
    fn place(&mut self, address: &SimpleCellAddress, vertex: Vertex) -> (res: Result<
        (),
        EngineError,
    >)
        requires
            old(self).wf(),
            old(self)@.cells.in_bounds(*address) ==> old(self)@.vertex_counter < i32::MAX,
            vertex.id() == old(self)@.vertex_counter,
        ensures
            final(self).wf(),
            match res {
                Ok(_) => old(self)@.cells.in_bounds(*address) && final(self)@ == old(self)@.place(
                    *address,
                    vertex,
                ),
                Err(e) => e == EngineError::OutOfBounds && !old(self)@.cells.in_bounds(*address)
                    && final(self)@ == old(self)@,
            },
    {
        let id = self.vertex_counter;
        match self.address_mapping.set_cell(address, id) {
            Ok(_) => {},
            Err(e) => {
                return Err(e);
            },
        }
        self.vertex_counter = id + 1;
        self.graph.add_node(vertex);
        proof {
            self.graph.lemma_view_wf();
            assert(self@ =~= old(self)@.place(*address, vertex));
        }
        Ok(())
    }

    /// Enters the number `value` at `address`: a new value cell takes the
    /// place of whatever stood there. Fails, and changes nothing, when the
    /// address lies outside the grid.
    pub fn build_number_value_node_into_graph(&mut self, address: SimpleCellAddress, value: i32) -> (res:
        Result<(), EngineError>)
        requires
            old(self).wf(),
            old(self)@.cells.in_bounds(address) ==> old(self)@.vertex_counter < i32::MAX,
        ensures
            final(self).wf(),
            match res {
                Ok(_) => old(self)@.cells.in_bounds(address) && final(self)@
                    == old(self)@.set_number(address, value),
                Err(e) => e == EngineError::OutOfBounds && !old(self)@.cells.in_bounds(address)
                    && final(self)@ == old(self)@,
            },
    {
        let vertex = Vertex::ValueCell(
            ValueCellVertex {
                color: 0,
                vertex_id: self.vertex_counter,
                cell_value: CellValue::Number(value),
            },
        );
        self.place(&address, vertex)
    }

    /// Enters the text `value` at `address`: a new value cell takes the
    /// place of whatever stood there. Fails, and changes nothing, when the
    /// address lies outside the grid.
    pub fn build_string_value_node_into_graph(
        &mut self,
        address: SimpleCellAddress,
        value: String,
    ) -> (res: Result<(), EngineError>)
        requires
            old(self).wf(),
            old(self)@.cells.in_bounds(address) ==> old(self)@.vertex_counter < i32::MAX,
        ensures
            final(self).wf(),
            match res {
                Ok(_) => old(self)@.cells.in_bounds(address) && final(self)@ == old(self)@.set_text(
                    address,
                    value,
                ),
                Err(e) => e == EngineError::OutOfBounds && !old(self)@.cells.in_bounds(address)
                    && final(self)@ == old(self)@,
            },
    {
        let vertex = Vertex::ValueCell(
            ValueCellVertex {
                color: 0,
                vertex_id: self.vertex_counter,
                cell_value: CellValue::Text(value),
            },
        );
        self.place(&address, vertex)
    }

    /// Enters `formula` at `address`: a new formula cell, not yet
    /// evaluated, takes the place of whatever stood there. Fails, and
    /// changes nothing, when the address lies outside the grid.
    pub fn build_formula_node_into_graph(&mut self, address: SimpleCellAddress, formula: Ast) -> (res:
        Result<(), EngineError>)
        requires
            old(self).wf(),
            old(self)@.cells.in_bounds(address) ==> old(self)@.vertex_counter < i32::MAX,
        ensures
            final(self).wf(),
            match res {
                Ok(_) => old(self)@.cells.in_bounds(address) && final(self)@
                    == old(self)@.set_formula(address, formula),
                Err(e) => e == EngineError::OutOfBounds && !old(self)@.cells.in_bounds(address)
                    && final(self)@ == old(self)@,
            },
    {
        let vertex = Vertex::FormulaCell(
            FormulaCellVertex {
                color: 0,
                vertex_id: self.vertex_counter,
                cached_cell_value: None,
                formula,
                address,
            },
        );
        self.place(&address, vertex)
    }

    /// Makes the cell at `to_address` depend on the cell at `from_address`.
    /// Fails, and changes nothing, when either address lies outside the
    /// grid.
    pub fn handle_regular_dependency(
        &mut self,
        from_address: SimpleCellAddress,
        to_address: SimpleCellAddress,
    ) -> (res: Result<(), EngineError>)
        requires
            old(self).wf(),
        ensures
            final(self).wf(),
            match res {
                Ok(_) => {
                    &&& old(self)@.cells.in_bounds(from_address)
                    &&& old(self)@.cells.in_bounds(to_address)
                    &&& final(self)@ == old(self)@.add_cell_dependency(from_address, to_address)
                },
                Err(e) => {
                    &&& e == EngineError::OutOfBounds
                    &&& !(old(self)@.cells.in_bounds(from_address) && old(self)@.cells.in_bounds(
                        to_address,
                    ))
                    &&& final(self)@ == old(self)@
                },
            },
    {
        let from_vertex = match self.address_mapping.get_cell(&from_address) {
            Ok(id) => id,
            Err(e) => {
                return Err(e);
            },
        };
        let to_vertex = match self.address_mapping.get_cell(&to_address) {
            Ok(id) => id,
            Err(e) => {
                return Err(e);
            },
        };
        proof {
            assert(self@.graph.contains(self@.cells.cells[self@.cells.flat_index(from_address)]));
            assert(self@.graph.contains(self@.cells.cells[self@.cells.flat_index(to_address)]));
        }
        let _ = self.graph.add_edge_by_ids(&from_vertex, &to_vertex);
        proof {
            self.graph.lemma_view_wf();
            assert(self@ =~= old(self)@.add_cell_dependency(from_address, to_address));
        }
        Ok(())
    }

    /// Looks for a registered range that the rectangle from `start_address`
    /// to `end_address` extends by one row. Where there is one, it is
    /// returned with the corners of the added row; where there is none, with
    /// the corners of the whole rectangle. No other decomposition is tried.
    pub fn find_smaller_range(
        &self,
        start_address: SimpleCellAddress,
        end_address: SimpleCellAddress,
    ) -> (res: (Option<RangeVertex>, SimpleCellAddress, SimpleCellAddress))
        ensures
            res.0 == self@.smaller_range(start_address, end_address),
            res.1 == self@.rest_start(start_address, end_address),
            res.2 == end_address,
    {
        if end_address.row > start_address.row {
            let end_address_row_less = SimpleCellAddress {
                col: end_address.col,
                row: end_address.row - 1,
            };
            if let Some(vertex) = self.range_mapping.maybe_get_range(
                &start_address,
                &end_address_row_less,
            ) {
                return (
                    Some(vertex),
                    SimpleCellAddress { col: start_address.col, row: end_address.row },
                    end_address,
                );
            }
        }
        (None, start_address, end_address)
    }

    /// The range vertex of the rectangle from `start` to `end`. Where none
    /// is registered, one is created with the next free id and registered
    /// with the graph and with the ranges.
    pub fn get_or_create_range(&mut self, start: SimpleCellAddress, end: SimpleCellAddress) -> (range:
        RangeVertex)
        requires
            old(self).wf(),
            old(self)@.ranges.contains_key((start, end)) || old(self)@.vertex_counter < i32::MAX,
        ensures
            final(self).wf(),
            range == old(self)@.range_vertex(start, end),
            final(self)@ == old(self)@.with_range(start, end),
    {
        match self.range_mapping.maybe_get_range(&start, &end) {
            Some(vertex) => vertex,
            None => {
                let vertex = RangeVertex { color: 0, vertex_id: self.vertex_counter, start, end };
                self.vertex_counter += 1;
                self.range_mapping.set_range(vertex);
                self.graph.add_node(Vertex::RangeCell(vertex));
                proof {
                    self.graph.lemma_view_wf();
                    assert(self@ =~= old(self)@.with_range(start, end));
                }
                vertex
            },
        }
    }

    /// Makes the cell at `to_address` depend on every cell of the rectangle
    /// from `from_start_address` to `from_end_address`, by way of the
    /// rectangle's range vertex. A registered range that is one row shorter
    /// is reused: it becomes a source of the range vertex, and only the
    /// cells of the last row are wired one by one. Fails, and changes
    /// nothing, when `to_address` or a cell that is to be wired lies outside
    /// the grid.
    pub fn handle_range_dependency(
        &mut self,
        from_start_address: SimpleCellAddress,
        from_end_address: SimpleCellAddress,
        to_address: SimpleCellAddress,
    ) -> (res: Result<(), EngineError>)
        requires
            old(self).wf(),
            old(self)@.ranges.contains_key((from_start_address, from_end_address))
                || old(self)@.vertex_counter < i32::MAX,
        ensures
            final(self).wf(),
            match res {
                Ok(_) => {
                    &&& old(self)@.cells.in_bounds(to_address)
                    &&& old(self)@.range_sources(from_start_address, from_end_address) is Ok
                    &&& final(self)@ == old(self)@.add_range_dependency(
                        from_start_address,
                        from_end_address,
                        to_address,
                    )
                },
                Err(e) => {
                    &&& e == EngineError::OutOfBounds
                    &&& !(old(self)@.cells.in_bounds(to_address) && old(self)@.range_sources(
                        from_start_address,
                        from_end_address,
                    ) is Ok)
                    &&& final(self)@ == old(self)@
                },
            },
    {
        let to_vertex = match self.address_mapping.get_cell(&to_address) {
            Ok(id) => id,
            Err(e) => {
                return Err(e);
            },
        };
        let (maybe_smaller_range_vertex, rest_range_start, rest_range_end) =
            self.find_smaller_range(from_start_address, from_end_address);
        let sources = match range_vertices(
            &self.address_mapping,
            &rest_range_start,
            &rest_range_end,
        ) {
            Ok(ids) => ids,
            Err(e) => {
                proof {
                    lemma_vertex_scan_error(
                        self@.cells,
                        rect_cells(rest_range_start, rest_range_end),
                    );
                }
                return Err(e);
            },
        };
        proof {
            lemma_collected_vertices_are_cells(
                self@.cells,
                rect_cells(rest_range_start, rest_range_end),
            );
            assert(self@.graph.contains(self@.cells.cells[self@.cells.flat_index(to_address)]));
        }
        let range_vertex = self.get_or_create_range(from_start_address, from_end_address);
        let ghost registered = self@;
        proof {
            assert(registered == old(self)@.with_range(from_start_address, from_end_address));
            assert(registered.graph.contains(range_vertex.vertex_id));
            assert(forall|id: i32| old(self)@.graph.contains(id) ==> registered.graph.contains(id));
        }
        if let Some(smaller_range_vertex) = maybe_smaller_range_vertex {
            proof {
                let shorter = (
                    from_start_address,
                    SimpleCellAddress {
                        col: from_end_address.col,
                        row: (from_end_address.row - 1) as i32,
                    },
                );
                assert(old(self)@.ranges.contains_key(shorter));
                assert(old(self)@.graph.contains(smaller_range_vertex.vertex_id));
            }
            let _ = self.graph.add_edge_by_ids(
                &smaller_range_vertex.vertex_id,
                &range_vertex.vertex_id,
            );
        }
        let ghost joined = self.graph@;
        proof {
            assert(forall|id: i32| joined.contains(id) <==> registered.graph.contains(id));
            assert forall|k: int| 0 <= k < sources@.len() implies joined.contains(sources@[k]) by {
                let i = choose|i: int|
                    0 <= i < old(self)@.cells.cells.len() && old(self)@.cells.cells[i]
                        == sources@[k];
                assert(old(self)@.graph.contains(old(self)@.cells.cells[i]));
            }
        }
        let _ = self.graph.add_edges_to(&sources, range_vertex.vertex_id);
        proof {
            Self::lemma_edges_keep_vertices(joined, sources@, range_vertex.vertex_id);
        }
        let _ = self.graph.add_edge_by_ids(&range_vertex.vertex_id, &to_vertex);
        proof {
            self.graph.lemma_view_wf();
            assert(self@ =~= old(self)@.add_range_dependency(
                from_start_address,
                from_end_address,
                to_address,
            ));
        }
        Ok(())
    }

    /// Adding edges adds no vertex and takes none away.
    proof fn lemma_edges_keep_vertices(graph: GraphView, sources: Seq<i32>, to: i32)
        ensures
            graph.add_edges_to(sources, to).vertices == graph.vertices,
            graph.add_edges_to(sources, to).ids == graph.ids,
        decreases sources.len(),
    {
        if sources.len() > 0 {
            Self::lemma_edges_keep_vertices(graph, sources.drop_last(), to);
        }
    }

    /// Computes the evaluation order anew from the graph as it stands: every
    /// vertex after the vertices it depends on, in the order in which they
    /// became free of dependencies. Values cached by an earlier evaluation
    /// stay as they are.
    pub fn compute_topological_sorting(&mut self)
        requires
            old(self).wf(),
        ensures
            final(self).wf(),
            final(self)@.order is Some,
            old(self)@.graph.is_kahn_order(final(self)@.order->0),
            final(self)@ == (BundleView { order: final(self)@.order, ..old(self)@ }),
    {
        let topological_ordering = self.graph.topological_sort();
        self.topological_sorting = Some(topological_ordering);
    }

    /// Evaluates `formula` as the formula of the cell at `address`, against
    /// the values that the cells hold now.
    pub fn evaluate_ast(&self, formula: &Ast, address: &SimpleCellAddress) -> (res: Result<
        CellValue,
        EngineError,
    >)
        requires
            self.wf(),
        ensures
            res == evaluate(self@.graph, self@.cells, *formula, *address),
    {
        evaluate_ast(&self.graph, &self.address_mapping, formula, address)
    }

    /// Walks the evaluation order once and evaluates every formula cell on
    /// the way. Does nothing when no order was computed yet. The first
    /// formula that fails ends the pass: its error is returned, and what
    /// was computed before it stays.
    pub fn compute_formulas(&mut self) -> (res: Result<(), EngineError>)
        requires
            old(self).wf(),
        ensures
            final(self).wf(),
            (final(self)@, res) == old(self)@.evaluate_all(),
    {
        let res = match &self.topological_sorting {
            None => Ok(()),
            Some(topological_order) => {
                proof {
                    lemma_pass_keeps_structure(self@.graph, self@.cells, topological_order@);
                }
                compute_in_order(&mut self.graph, &self.address_mapping, topological_order)
            },
        };
        proof {
            self.graph.lemma_view_wf();
            assert(self@ =~= old(self)@.evaluate_all().0);
        }
        res
    }
}

/// An engine for a grid of `height` rows and `width` columns, every cell of
/// which is unoccupied.
pub fn build_interpreting_bundle(height: i32, width: i32) -> (bundle: InterpretingBundle)
    requires
        0 <= height,
        0 <= width,
        width * height <= usize::MAX,
    ensures
        bundle.wf(),
        bundle@ == BundleView::create(width, height),
{
    let default_empty = Vertex::EmptyCell(EmptyCellVertex { vertex_id: 0, color: 0 });
    let mut graph = Graph::build();
    graph.add_node(default_empty);
    let bundle = InterpretingBundle {
        graph,
        range_mapping: buildRangeMapping(),
        address_mapping: build_array_address_mapping(width, height, 0),
        default_empty: 0,
        vertex_counter: 1,
        topological_sorting: None,
    };
    proof {
        bundle.graph.lemma_view_wf();
        assert(bundle@ =~= BundleView::create(width, height));
    }
    bundle
}

} // verus!
