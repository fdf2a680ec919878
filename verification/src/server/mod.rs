//! What the HTTP API decides: who may do what, what is answered, and what changes.

pub mod access;
pub mod admin;
pub mod answers;
pub mod batch;
pub mod boot;
pub mod config;
pub mod data;
pub mod events;
pub mod laws;
pub mod ratelimit;
pub mod reply;
pub mod state;
pub mod tls;
pub mod upkeep;

pub use state::{AppState, AuthCaps};
