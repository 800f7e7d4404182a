//! A Futoshiki solver: Latin squares with strict order constraints between cells,
//! searched by verified backtracking with forward checking.

pub mod relation;
pub mod domain;
pub mod grid;
pub mod matrix;
pub mod puzzle;
pub mod input;
