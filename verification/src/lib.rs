//! Lists the coding-assistant sessions of a machine: what state each one is in, when it was last
//! active, and how the sessions nest by working directory.

pub mod forest;
pub mod json;
pub mod order;
pub mod paint;
pub mod query;
pub mod render;
pub mod session;
pub mod text;
pub mod time;
pub mod transcript;
pub mod tree;
