//! What the listeners decide, on every transport.

pub mod access;
pub mod answer;
pub mod conduct;
pub mod names;
pub mod share;
pub mod stream;
