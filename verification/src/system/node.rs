//! The names by which the nodes of an editor describe themselves.

use vstd::prelude::*;

verus! {

/// The outside of a node: its title and the group it is listed under.
pub trait NodeExterior {
    /// The title of this node.
    fn title() -> &'static str;

    /// The group this node is listed under.
    fn group_name() -> &'static str;
}

/// A node that reduces the attribute named `param_name` to a result named `result_name`.
pub trait Reducer {
    /// The name of the result.
    fn result_name() -> &'static str;

    /// The name of the parameter it expects.
    fn param_name() -> &'static str;
}

/// A node that displays its state under the name `display_name`.
pub trait Display {
    /// The name of the display.
    fn display_name() -> &'static str;
}

} // verus!
