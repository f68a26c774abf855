//! Assembly of the linear equations of an electrical network: the unknowns
//! of each element, the Kirchhoff matrix (node and loop equations) and the
//! constitutive matrix, with exact rational coefficients.

pub mod laws;
pub mod loops;
pub mod matrix;
pub mod parse;
pub mod ratio;
pub mod solver;
pub mod structure;
