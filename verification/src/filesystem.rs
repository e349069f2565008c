//! Toy file allocators over in-memory block arenas: one linked, one
//! indexed.

pub mod indexed;
pub mod linked;
