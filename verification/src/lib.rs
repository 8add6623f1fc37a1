//! A constraint-propagation core for grid-based logic puzzles.
//!
//! The library models per-cell candidate sets as bit masks, a board as a
//! grid of such masks, and provides one fully specified constraint: the
//! thermometer (ordering) constraint, whose chain of cells must hold
//! strictly increasing values.

pub mod mask;
pub mod board;
pub mod constraint;
pub mod step_result;
pub mod thermometer;

pub use crate::board::Board;
pub use crate::constraint::Constraint;
pub use crate::mask::ValueMask;
pub use crate::step_result::StepDesc;
pub use crate::step_result::StepResult;
pub use crate::thermometer::ThermometerConstraint;
