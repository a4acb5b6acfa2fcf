//! The systems of the data layer: a filesystem graph, node descriptions, and app state.

pub mod attribute;
pub mod filesystem;
pub mod node;
pub mod test;
pub mod user_app;
pub mod value;

pub use attribute::{Attribute, AttributeModel};
pub use filesystem::{FSNode, Filesystem};
pub use node::{Display, NodeExterior, Reducer};
pub use value::Value;
