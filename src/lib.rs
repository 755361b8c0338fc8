//! A write-once memory machine for witness generation: a fixed address space
//! built from constant columns, where every address receives at most one value.
pub mod field;
pub mod eval;
pub mod affine;
pub mod identity;
pub mod memory;
