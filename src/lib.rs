//! Nonogram solver: line deduction over label placements and a worklist
//! propagation engine over the rows and columns of a grid.

pub mod model;
pub mod schema;
pub mod solver;
