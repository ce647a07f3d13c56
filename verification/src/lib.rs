//! A deterministic simulation engine for a falling-block matching puzzle:
//! a 6x13 grid of colored cells where groups of four or more same-colored
//! 4-connected cells vanish, gravity compacts the columns, and cascades
//! ("chains") are scored by a table-driven formula.

pub mod calc;
pub mod core_field;
pub mod field;
pub mod model;
pub mod score;
pub mod simulation;

pub use calc::add_internal;
pub use calc::greet_internal;
pub use calc::CalculatorInternal;
pub use field::Field;
pub use field::Puyo;
pub use simulation::simulate_chains;
pub use simulation::ChainResult;
