//! Computation core of a spreadsheet engine.
//!
//! The engine keeps a dependency graph over cells and cell ranges, finds an
//! order in which every vertex comes after the vertices it depends on, and
//! recomputes the formula cells in that order.
//!
//! - [`address`], [`value`], [`ast`], [`vertex`]: the data that the engine
//!   works on.
//! - [`graph`]: the dependency graph and its topological sort; [`order`] and
//!   [`history`] hold what is proved of them.
//! - [`address_mapping`], [`range_mapping`], [`rect`]: the grid, the
//!   registered ranges, and scans over rectangles of cells.
//! - [`eval`]: the evaluation of formulas; [`stability`] shows when a second
//!   evaluation changes nothing.
//! - [`bundle`]: the engine as a whole.
//! - [`host`]: the conversion of the formula trees that the host hands over.

pub mod address;
pub mod address_mapping;
pub mod ast;
pub mod bundle;
pub mod error;
pub mod eval;
pub mod graph;
pub mod history;
pub mod host;
pub mod order;
pub mod range_mapping;
pub mod rect;
pub mod stability;
pub mod value;
pub mod vertex;
