//! The programmer's calculator: one value, read in every base at once.

pub mod field;
pub mod keys;
pub mod laws;
pub mod operation;
pub mod state;
pub mod width;
