//! The vertices of the dependency graph.

use crate::address::SimpleCellAddress;
use crate::ast::Ast;
use crate::error::EngineError;
use crate::value::CellValue;
use vstd::prelude::*;

verus! {

/// The sentinel that stands for every unoccupied cell.
#[derive(Clone, Copy, Debug)]
pub struct EmptyCellVertex {
    /// The id under which the graph knows the vertex.
    pub vertex_id: i32,
    /// A mark for graph traversals. The engine sets it to 0 and does not
    /// read it.
    pub color: i8,
}

/// A cell that holds a literal value.
#[derive(Debug)]
pub struct ValueCellVertex {
    /// A mark for graph traversals. The engine sets it to 0 and does not
    /// read it.
    pub color: i8,
    /// The id under which the graph knows the vertex.
    pub vertex_id: i32,
    /// The literal.
    pub cell_value: CellValue,
}

/// A cell that holds a formula, the position it was entered at, and the value
/// of its last evaluation, if there was one.
#[derive(Debug)]
pub struct FormulaCellVertex {
    /// A mark for graph traversals. The engine sets it to 0 and does not
    /// read it.
    pub color: i8,
    /// The id under which the graph knows the vertex.
    pub vertex_id: i32,
    /// The result of the last evaluation; none before the first.
    pub cached_cell_value: Option<CellValue>,
    /// The formula.
    pub formula: Ast,
    /// The cell at which the formula was entered: relative references in
    /// the formula start from here.
    pub address: SimpleCellAddress,
}

/// A rectangle of cells. It has no value: it only joins the cells it covers
/// to the formulas that read them.
#[derive(Clone, Copy, Debug)]
pub struct RangeVertex {
    /// A mark for graph traversals. The engine sets it to 0 and does not
    /// read it.
    pub color: i8,
    /// The id under which the graph knows the vertex.
    pub vertex_id: i32,
    /// The first cell of the rectangle.
    pub start: SimpleCellAddress,
    /// The last cell of the rectangle.
    pub end: SimpleCellAddress,
}

impl EmptyCellVertex {
    pub fn get_color(&self) -> (color: i8)
        ensures
            color == self.color,
    {
        self.color
    }

    pub fn get_vertex_id(&self) -> (id: i32)
        ensures
            id == self.vertex_id,
    {
        self.vertex_id
    }

    /// An unoccupied cell reads as the number 0.
    pub fn get_cell_value(&self) -> (value: CellValue)
        ensures
            value == CellValue::Number(0),
    {
        CellValue::Number(0)
    }

    /// The sentinel stores nothing: writing to it has no effect.
    pub fn set_cell_value(&mut self, new_cell_value: CellValue)
        ensures
            *final(self) == *old(self),
    {
    }
}

impl ValueCellVertex {
    pub fn get_color(&self) -> (color: i8)
        ensures
            color == self.color,
    {
        self.color
    }

    pub fn get_vertex_id(&self) -> (id: i32)
        ensures
            id == self.vertex_id,
    {
        self.vertex_id
    }

    /// The literal that the cell holds.
    pub fn get_cell_value(&self) -> (value: CellValue)
        ensures
            value == self.cell_value,
    {
        self.cell_value.clone()
    }

    /// Replaces the literal that the cell holds.
    pub fn set_cell_value(&mut self, new_cell_value: CellValue)
        ensures
            *final(self) == (ValueCellVertex { cell_value: new_cell_value, ..*old(self) }),
    {
        self.cell_value = new_cell_value;
    }
}

impl FormulaCellVertex {
    pub fn get_color(&self) -> (color: i8)
        ensures
            color == self.color,
    {
        self.color
    }

    pub fn get_vertex_id(&self) -> (id: i32)
        ensures
            id == self.vertex_id,
    {
        self.vertex_id
    }

    /// The formula and the position it was entered at.
    pub fn get_formula(&self) -> (res: (&Ast, &SimpleCellAddress))
        ensures
            *res.0 == self.formula,
            *res.1 == self.address,
    {
        (&self.formula, &self.address)
    }

    /// The result of the last evaluation. A cell that was never evaluated
    /// has none.
    pub fn get_cell_value(&self) -> (res: Result<CellValue, EngineError>)
        ensures
            res == match self.cached_cell_value {
                Some(value) => Ok::<CellValue, EngineError>(value),
                None => Err(EngineError::MissingCachedValue),
            },
    {
        match &self.cached_cell_value {
            Some(value) => Ok(value.clone()),
            None => Err(EngineError::MissingCachedValue),
        }
    }

    /// Stores the result of an evaluation.
    pub fn set_cell_value(&mut self, new_value: CellValue)
        ensures
            *final(self) == (FormulaCellVertex { cached_cell_value: Some(new_value), ..*old(self) }),
    {
        self.cached_cell_value = Some(new_value);
    }
}

impl RangeVertex {
    pub fn get_color(&self) -> (color: i8)
        ensures
            color == self.color,
    {
        self.color
    }

    pub fn get_vertex_id(&self) -> (id: i32)
        ensures
            id == self.vertex_id,
    {
        self.vertex_id
    }
}

/// A vertex of any kind.
#[derive(Debug)]
pub enum Vertex {
    EmptyCell(EmptyCellVertex),
    ValueCell(ValueCellVertex),
    FormulaCell(FormulaCellVertex),
    RangeCell(RangeVertex),
}

impl Vertex {
    /// The id under which the graph knows this vertex.
    pub open spec fn id(self) -> i32 {
        match self {
            Vertex::EmptyCell(v) => v.vertex_id,
            Vertex::ValueCell(v) => v.vertex_id,
            Vertex::FormulaCell(v) => v.vertex_id,
            Vertex::RangeCell(v) => v.vertex_id,
        }
    }

    /// What reading this vertex gives.
    pub open spec fn value(self) -> Result<CellValue, EngineError> {
        match self {
            Vertex::EmptyCell(_) => Ok(CellValue::Number(0)),
            Vertex::ValueCell(v) => Ok(v.cell_value),
            Vertex::FormulaCell(v) => match v.cached_cell_value {
                Some(value) => Ok(value),
                None => Err(EngineError::MissingCachedValue),
            },
            Vertex::RangeCell(_) => Err(EngineError::UnsupportedOperation),
        }
    }

    /// The formula of this vertex and the position it was entered at, if it
    /// is a formula cell.
    pub open spec fn formula(self) -> Option<(Ast, SimpleCellAddress)> {
        match self {
            Vertex::FormulaCell(v) => Some((v.formula, v.address)),
            _ => None,
        }
    }

    /// Whether this vertex is `before`, or the formula cell `before` with
    /// another cached value.
    pub open spec fn recomputed_from(self, before: Vertex) -> bool {
        ||| self == before
        ||| {
            &&& before matches Vertex::FormulaCell(b)
            &&& self matches Vertex::FormulaCell(a)
            &&& a.vertex_id == b.vertex_id
            &&& a.color == b.color
            &&& a.formula == b.formula
            &&& a.address == b.address
        }
    }

    /// This vertex after `new_value` was written to it.
    pub open spec fn with_value(self, new_value: CellValue) -> Vertex {
        match self {
            Vertex::EmptyCell(v) => self,
            Vertex::ValueCell(v) => Vertex::ValueCell(
                ValueCellVertex { cell_value: new_value, ..v },
            ),
            Vertex::FormulaCell(v) => Vertex::FormulaCell(
                FormulaCellVertex { cached_cell_value: Some(new_value), ..v },
            ),
            Vertex::RangeCell(v) => self,
        }
    }

    /// The id under which the graph knows this vertex.
    pub fn get_vertex_id(&self) -> (id: i32)
        ensures
            id == self.id(),
    {
        match self {
            Vertex::EmptyCell(v) => v.get_vertex_id(),
            Vertex::ValueCell(v) => v.get_vertex_id(),
            Vertex::FormulaCell(v) => v.get_vertex_id(),
            Vertex::RangeCell(v) => v.get_vertex_id(),
        }
    }

    /// The formula and its position, for a formula cell; nothing for every
    /// other kind of vertex.
    pub fn get_formula(&self) -> (res: Option<(&Ast, &SimpleCellAddress)>)
        ensures
            match res {
                Some((formula, address)) => self.formula() == Some((*formula, *address)),
                None => self.formula().is_none(),
            },
    {
        match self {
            Vertex::FormulaCell(v) => Some(v.get_formula()),
            _ => None,
        }
    }

    pub fn get_color(&self) -> (color: i8)
        ensures
            color == match *self {
                Vertex::EmptyCell(v) => v.color,
                Vertex::ValueCell(v) => v.color,
                Vertex::FormulaCell(v) => v.color,
                Vertex::RangeCell(v) => v.color,
            },
    {
        match self {
            Vertex::EmptyCell(v) => v.get_color(),
            Vertex::ValueCell(v) => v.get_color(),
            Vertex::FormulaCell(v) => v.get_color(),
            Vertex::RangeCell(v) => v.get_color(),
        }
    }

    /// Reads the vertex: 0 for the empty sentinel, the literal of a value
    /// cell, the cached result of a formula cell.
    pub fn get_cell_value(&self) -> (res: Result<CellValue, EngineError>)
        ensures
            res == self.value(),
    {
        match self {
            Vertex::EmptyCell(v) => Ok(v.get_cell_value()),
            Vertex::ValueCell(v) => Ok(v.get_cell_value()),
            Vertex::FormulaCell(v) => v.get_cell_value(),
            Vertex::RangeCell(_) => Err(EngineError::UnsupportedOperation),
        }
    }

    /// Writes the vertex: the literal of a value cell, the cache of a formula
    /// cell. The empty sentinel and ranges store nothing.
    pub fn set_cell_value(&mut self, new_value: CellValue)
        ensures
            *final(self) == old(self).with_value(new_value),
    {
        match self {
            Vertex::EmptyCell(v) => {
                v.set_cell_value(new_value);
            },
            Vertex::ValueCell(v) => {
                v.set_cell_value(new_value);
            },
            Vertex::FormulaCell(v) => {
                v.set_cell_value(new_value);
            },
            Vertex::RangeCell(_) => {},
        }
    }
}

} // verus!
