//! The rules of a filtering DNS server.

pub mod asked;
pub mod cache;
pub mod clients;
pub mod domidx;
pub mod doq;
pub mod engine;
pub mod ip;
pub mod laws;
pub mod lists;
pub mod message;
pub mod multi;
pub mod table;
pub mod text;
pub mod utf;
pub mod packed;
pub mod probe;
pub mod querylog;
pub mod quic;
pub mod rule;
pub mod server;
pub mod shortcut;
