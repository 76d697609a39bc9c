//! Adaptive correction: the correction session state machine and what it learns.

pub mod learning;
pub mod session;
