//! Interpreters over other carriers of a program than the IR.
pub mod serialized;
