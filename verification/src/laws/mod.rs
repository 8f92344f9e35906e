//! What the library's operations are for, in terms of what goes in and what
//! comes out.

pub mod text;
pub mod rule;
pub mod verdict;
pub mod cache;
pub mod access;
pub mod clients;
pub mod guard;
pub mod server;
pub mod lists;
pub mod querylog;
