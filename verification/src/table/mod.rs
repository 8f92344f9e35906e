//! Tables that find their entries by hash and enumerate them by position.
//!
//! The entries stand in a vector and a hash map says where each key's entry
//! is. A removed entry's place is taken by the last one, so positions are
//! dense and a walk over them visits every entry once.

pub mod bytes;
pub mod ints;
