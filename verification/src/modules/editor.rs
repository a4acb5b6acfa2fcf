use crate::store::{pending_after_link, pending_ok, well_formed, with_link, with_node, Store, StoreModel};
use vstd::prelude::*;

verus! {

/// A part of an editor node: an input or an output. (The name function each part carried is
/// a function pointer, which the library cannot hold; dispatching never read it.)
#[derive(Clone, Copy, Debug)]
pub enum NodeComponent {
    Input,
    Output,
}

/// A node of an editor, configured by a graph of its parts.
pub struct EditorNode {
    config: Store<&'static str>,
}

impl View for EditorNode {
    type V = StoreModel<&'static str>;

    closed spec fn view(&self) -> StoreModel<&'static str> {
        self.config@
    }
}

impl Clone for EditorNode {
    fn clone(&self) -> (r: Self)
        ensures
            r@ == self@,
    {
        EditorNode { config: self.config.clone() }
    }
}

impl Default for EditorNode {
    /// An editor node whose configuration holds a component, an input and an output, unlinked.
    fn default() -> (r: Self)
        ensures
            r@.nodes == with_node(
                with_node(with_node(Map::empty(), Map::empty(), "component"), Map::empty(), "input"),
                Map::empty(),
                "output",
            ),
            r@.pending == Map::<u64, Set<u64>>::empty(),
    {
        let empty = Store::default();
        let component = empty.node("component");
        assert(component@.pending =~= Map::empty());
        let input = component.node("input");
        assert(input@.pending =~= Map::empty());
        let output = input.node("output");
        assert(output@.pending =~= Map::empty());
        Self { config: output }
    }
}

impl EditorNode {
    /// Links the component to the part that `params` names: its input or its output.
    pub fn dispatch(&self, params: NodeComponent) -> (r: Self)
        ensures
            ({
                let part: &'static str = match params {
                    NodeComponent::Input => "input",
                    NodeComponent::Output => "output",
                };
                &&& r@.nodes == with_link(self@.nodes, "component", part)
                &&& r@.pending == pending_after_link(self@.nodes, self@.pending, "component", part)
            }),
            well_formed(r@.nodes),
            pending_ok(r@.nodes, r@.pending),
    {
        let config = match params {
            NodeComponent::Input => self.config.link("component", "input"),
            NodeComponent::Output => self.config.link("component", "output"),
        };
        Self { config }
    }
}

} // verus!
