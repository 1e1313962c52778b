//! Walks a generic value tree and hands out, one at a time, the calls that
//! build a typed value from it, with an explicit work stack instead of
//! recursion.
pub mod calls;
pub mod driver;
pub mod laws;
pub mod tree;
