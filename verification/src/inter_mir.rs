//! Type checking of the mid-level IR.
pub mod error;
pub mod log;
pub mod poly;
pub mod rounds;
