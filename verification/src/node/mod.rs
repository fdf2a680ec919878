//! Clocks, keys and the node's own files.

pub mod hlc;
pub mod ident;
pub mod meta;
pub mod rotate;
