//! Grid coordinates and cell references.

use crate::error::EngineError;
use vstd::prelude::*;

verus! {

/// How a reference inside a formula relates to the formula's own cell.
#[derive(Clone, Copy, Debug, PartialEq, Eq, Structural)]
pub enum CellReferenceType {
    /// Both coordinates are offsets from the formula's cell.
    Relative,
    /// Both coordinates are taken as they stand.
    Absolute,
    /// The column is taken as it stands, the row is an offset.
    AbsoluteCol,
    /// The row is taken as it stands, the column is an offset.
    AbsoluteRow,
}

/// A cell reference as it appears in a formula.
#[derive(Clone, Copy, Debug, PartialEq, Eq, Structural)]
pub struct CellAddress {
    pub col: i32,
    pub row: i32,
    pub kind: CellReferenceType,
}

/// An absolute, zero-based grid position.
#[derive(Clone, Copy, Debug, PartialEq, Eq, Structural)]
pub struct SimpleCellAddress {
    pub col: i32,
    pub row: i32,
}

/// The column that `address` denotes in a formula placed at `base`.
pub open spec fn absolute_col(address: CellAddress, base: SimpleCellAddress) -> int {
    match address.kind {
        CellReferenceType::Relative | CellReferenceType::AbsoluteRow => address.col + base.col,
        CellReferenceType::Absolute | CellReferenceType::AbsoluteCol => address.col as int,
    }
}

/// The row that `address` denotes in a formula placed at `base`.
pub open spec fn absolute_row(address: CellAddress, base: SimpleCellAddress) -> int {
    match address.kind {
        CellReferenceType::Relative | CellReferenceType::AbsoluteCol => address.row + base.row,
        CellReferenceType::Absolute | CellReferenceType::AbsoluteRow => address.row as int,
    }
}

/// Whether the position that `address` denotes at `base` can be written as a
/// `SimpleCellAddress`.
pub open spec fn absolutizable(address: CellAddress, base: SimpleCellAddress) -> bool {
    &&& i32::MIN <= absolute_col(address, base) <= i32::MAX
    &&& i32::MIN <= absolute_row(address, base) <= i32::MAX
}

/// Resolves a reference against the cell of the formula that holds it. A
/// position whose coordinates leave the range of `i32` lies outside every
/// grid and is reported as `OutOfBounds`.
pub fn absolutize_address(address: &CellAddress, base_address: &SimpleCellAddress) -> (res: Result<
    SimpleCellAddress,
    EngineError,
>)
    ensures
        match res {
            Ok(a) => absolutizable(*address, *base_address) && a.col == absolute_col(
                *address,
                *base_address,
            ) && a.row == absolute_row(*address, *base_address),
            Err(e) => e == EngineError::OutOfBounds && !absolutizable(*address, *base_address),
        },
{
    let (col, row): (i64, i64) = match address.kind {
        CellReferenceType::Relative => (
            address.col as i64 + base_address.col as i64,
            address.row as i64 + base_address.row as i64,
        ),
        CellReferenceType::Absolute => (address.col as i64, address.row as i64),
        CellReferenceType::AbsoluteCol => (
            address.col as i64,
            address.row as i64 + base_address.row as i64,
        ),
        CellReferenceType::AbsoluteRow => (
            address.col as i64 + base_address.col as i64,
            address.row as i64,
        ),
    };
    if col < i32::MIN as i64 || col > i32::MAX as i64 || row < i32::MIN as i64 || row
        > i32::MAX as i64 {
        Err(EngineError::OutOfBounds)
    } else {
        Ok(SimpleCellAddress { col: col as i32, row: row as i32 })
    }
}

} // verus!
