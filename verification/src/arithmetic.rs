//! Arithmetic in the prime field that the sketches are summed in.

pub mod evaluator;
pub mod field;
pub mod modint;
pub mod power_table;

pub use crate::arithmetic::evaluator::MonicPolynomialEvaluator;
pub use crate::arithmetic::modint::ModularInteger;
pub use crate::arithmetic::power_table::PowerTable;
