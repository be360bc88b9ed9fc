//! The dense lookup from grid positions to vertices.

use crate::address::SimpleCellAddress;
use crate::error::EngineError;
use crate::graph::{Graph, GraphView};
use crate::value::CellValue;
use vstd::prelude::*;

verus! {

/// The address mapping as a mathematical object: the grid's width and, row
/// after row, the id of the vertex at each position.
#[verifier::ext_equal]
pub struct AddressMappingView {
    pub width: int,
    pub cells: Seq<i32>,
}

impl AddressMappingView {
    /// Where the vertex of `address` stands in `cells`.
    pub open spec fn flat_index(self, address: SimpleCellAddress) -> int {
        address.row * self.width + address.col
    }

    /// Whether `address` has a place in `cells`.
    pub open spec fn in_bounds(self, address: SimpleCellAddress) -> bool {
        0 <= self.flat_index(address) < self.cells.len()
    }

    /// The id of the vertex at `address`.
    pub open spec fn cell(self, address: SimpleCellAddress) -> i32 {
        self.cells[self.flat_index(address)]
    }

    /// The mapping after the vertex `vertex_id` was placed at `address`.
    pub open spec fn set_cell(self, address: SimpleCellAddress, vertex_id: i32) -> AddressMappingView {
        AddressMappingView {
            cells: self.cells.update(self.flat_index(address), vertex_id),
            ..self
        }
    }

    /// What reading `address` gives when the vertices are those of `graph`.
    pub open spec fn value_at(self, graph: GraphView, address: SimpleCellAddress) -> Result<
        CellValue,
        EngineError,
    > {
        if self.in_bounds(address) {
            graph.value_of(self.cell(address))
        } else {
            Err(EngineError::OutOfBounds)
        }
    }
}

impl AddressMappingView {
    /// A vertex placed at an address inside the grid is found there.
    pub proof fn lemma_set_cell_then_get(self, address: SimpleCellAddress, vertex_id: i32)
        requires
            self.in_bounds(address),
        ensures
            self.set_cell(address, vertex_id).in_bounds(address),
            self.set_cell(address, vertex_id).cell(address) == vertex_id,
    {
    }

    /// Placing a vertex at one position leaves the other positions as they
    /// were.
    pub proof fn lemma_set_cell_keeps_others(
        self,
        address: SimpleCellAddress,
        vertex_id: i32,
        other: SimpleCellAddress,
    )
        requires
            self.in_bounds(address),
            self.in_bounds(other),
            self.flat_index(other) != self.flat_index(address),
        ensures
            self.set_cell(address, vertex_id).cell(other) == self.cell(other),
    {
    }
}

/// A grid of fixed size that holds, for each position, the id of the vertex
/// placed there.
pub struct ArrayAddressMapping {
    width: i32,
    mapping: Vec<i32>,
    default_empty: i32,
}

impl View for ArrayAddressMapping {
    type V = AddressMappingView;

    closed spec fn view(&self) -> AddressMappingView {
        AddressMappingView { width: self.width as int, cells: self.mapping@ }
    }
}

impl ArrayAddressMapping {
    /// The id that stands for an unoccupied position.
    pub closed spec fn fill(&self) -> i32 {
        self.default_empty
    }

    /// The id with which the grid was filled when it was built.
    pub fn default_empty(&self) -> (id: i32)
        ensures
            id == self.fill(),
    {
        self.default_empty
    }

    /// The place of `address` in the backing array, if it has one.
    fn position(&self, address: &SimpleCellAddress) -> (res: Option<usize>)
        ensures
            match res {
                Some(p) => self@.in_bounds(*address) && p == self@.flat_index(*address),
                None => !self@.in_bounds(*address),
            },
    {
        assert(-0x4000_0000_0000_0000 <= address.row * self.width <= 0x4000_0000_0000_0000)
            by (nonlinear_arith)
            requires
                -0x8000_0000 <= address.row <= 0x7fff_ffff,
                -0x8000_0000 <= self.width <= 0x7fff_ffff,
        ;
        let flat: i64 = address.row as i64 * self.width as i64 + address.col as i64;
        if flat < 0 {
            return None;
        }
        if (flat as u64) < (self.mapping.len() as u64) {
            Some(flat as usize)
        } else {
            None
        }
    }

    /// The id of the vertex at `address`.
    pub fn get_cell(&self, address: &SimpleCellAddress) -> (res: Result<i32, EngineError>)
        ensures
            match res {
                Ok(id) => self@.in_bounds(*address) && id == self@.cell(*address),
                Err(e) => e == EngineError::OutOfBounds && !self@.in_bounds(*address),
            },
    {
        match self.position(address) {
            Some(p) => Ok(self.mapping[p]),
            None => Err(EngineError::OutOfBounds),
        }
    }

    /// Places the vertex `cell` at `address`. The grid is never resized: a
    /// position outside it is refused and nothing changes.
    pub fn set_cell(&mut self, address: &SimpleCellAddress, cell: i32) -> (res: Result<
        (),
        EngineError,
    >)
        ensures
            final(self).fill() == old(self).fill(),
            match res {
                Ok(_) => old(self)@.in_bounds(*address) && final(self)@ == old(self)@.set_cell(
                    *address,
                    cell,
                ),
                Err(e) => e == EngineError::OutOfBounds && !old(self)@.in_bounds(*address)
                    && final(self)@ == old(self)@,
            },
    {
        match self.position(address) {
            Some(p) => {
                self.mapping.set(p, cell);
                Ok(())
            },
            None => Err(EngineError::OutOfBounds),
        }
    }

    /// Reads the vertex at `address` out of `graph`.
    pub fn get_cell_value(&self, graph: &Graph, address: &SimpleCellAddress) -> (res: Result<
        CellValue,
        EngineError,
    >)
        requires
            graph.wf(),
        ensures
            res == self@.value_at(graph@, *address),
    {
        match self.position(address) {
            Some(p) => graph.get_cell_value(self.mapping[p]),
            None => Err(EngineError::OutOfBounds),
        }
    }

    /// Writes `new_value` to the vertex at `address`. The empty sentinel
    /// stores nothing, so writing to an unoccupied position has no effect.
    pub fn set_cell_value(
        &self,
        graph: &mut Graph,
        address: &SimpleCellAddress,
        new_value: CellValue,
    ) -> (res: Result<(), EngineError>)
        requires
            old(graph).wf(),
        ensures
            final(graph).wf(),
            match res {
                Ok(_) => {
                    &&& self@.in_bounds(*address)
                    &&& old(graph)@.contains(self@.cell(*address))
                    &&& final(graph)@ == old(graph)@.set_value(self@.cell(*address), new_value)
                },
                Err(e) => {
                    &&& *final(graph) == *old(graph)
                    &&& if self@.in_bounds(*address) {
                        e == EngineError::UnknownVertex && !old(graph)@.contains(
                            self@.cell(*address),
                        )
                    } else {
                        e == EngineError::OutOfBounds
                    }
                },
            },
    {
        match self.position(address) {
            Some(p) => graph.set_cell_value(self.mapping[p], new_value),
            None => Err(EngineError::OutOfBounds),
        }
    }
}

/// A grid of `width` columns and `height` rows in which every position
/// holds the vertex `default_empty`.
pub fn build_array_address_mapping(width: i32, height: i32, default_empty: i32) -> (mapping:
    ArrayAddressMapping)
    requires
        0 <= width,
        0 <= height,
        width * height <= usize::MAX,
    ensures
        mapping@.width == width,
        mapping@.cells == Seq::new((width * height) as nat, |i: int| default_empty),
        mapping.fill() == default_empty,
{
    assert(0 <= width * height) by (nonlinear_arith)
        requires
            0 <= width,
            0 <= height,
    ;
    let elements: usize = (width as u64 * height as u64) as usize;
    let cells: Vec<i32> = vec![default_empty; elements];
    assert(cells@ =~= Seq::new((width * height) as nat, |i: int| default_empty));
    ArrayAddressMapping { width, mapping: cells, default_empty }
}

} // verus!
