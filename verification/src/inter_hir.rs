//! Name resolution of the high-level IR.
pub mod log;
