//! The values that cells hold.

use vstd::prelude::*;

verus! {

/// What a cell evaluates to.
#[derive(Debug, PartialEq, Eq)]
pub enum CellValue {
    Number(i32),
    Text(String),
}

impl Clone for CellValue {
    fn clone(&self) -> (res: Self)
        ensures
            res == *self,
    {
        match self {
            CellValue::Number(n) => CellValue::Number(*n),
            CellValue::Text(s) => CellValue::Text(s.clone()),
        }
    }
}

} // verus!
