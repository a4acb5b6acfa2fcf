//! Nodes that editors offer: a node configuration, filesystem listings, functions and graphics.

pub mod editor;
pub mod filesystem;
pub mod functions;
pub mod graphics;
