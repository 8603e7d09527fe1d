//! The checkers, one module each.

pub mod c2pa;
