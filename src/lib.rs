//! Static schema inference for relational-algebra expressions.
//!
//! The library computes the row schema that an algebra expression produces
//! over a catalog of named tables, or rejects the expression with a located
//! error. Schemas are compared and merged by structural unification.
pub mod structs;
pub mod type_system;
pub mod type_check;
pub mod laws;
