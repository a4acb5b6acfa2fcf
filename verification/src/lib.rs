//! A data layer for applications built around an entity-component system: a content-addressed
//! graph store, content descriptors, and the building blocks of node editors.

pub mod desc;
pub mod modules;
pub mod store;
pub mod system;

use std::fmt::Debug;
use std::hash::Hash;
use std::ops::BitXor;
use vstd::prelude::*;

verus! {

/// A transition specifies that the implementing data has an invocation that has an output once
/// the data's parameters have been satisfied, leaving it to the user to define the outputs.
pub trait Transition: Debug + Default + Clone + 'static {
    type Output;

    /// Returns the output of the data, if it has one; this may change the data.
    fn transition(&mut self, select_output: Self::Output) -> Self::Output;
}

/// Called by a renderer system; lets client code swap out rendering backends.
pub trait Renderer<'a, D, N> where N: Node {
    type Artifact: State;

    fn render(&mut self, content: &desc::content::ContentStore<N>, data: &D, artifact: &Self::Artifact);
}

/// Called by an updater system, with write access; updaters run before renderers.
pub trait Updater<'a, D, N> where N: Node {
    type Artifact: State;

    fn update(
        &mut self,
        content: &'a mut desc::content::ContentStore<N>,
        data: &'a mut D,
        artifact: &'a mut Self::Artifact,
    );
}

/// The parts of a node that is used as an entity.
pub trait State {
    type NodeId;

    type Inputs;

    type Outputs;

    type Attributes;

    fn get_nodeid(&self) -> Self::NodeId;

    fn get_inputs(&self) -> Self::Inputs;

    fn get_outputs(&self) -> Self::Outputs;

    fn get_attributes(&self) -> Self::Attributes;
}

/// A node is anything that can be addressed. Implementing this trait controls how the parts of
/// the node (its inputs, outputs and attributes) are addressed on a more granular level.
pub trait Node: Clone + Debug + Hash + PartialEq + Eq {
    type NodeId: Clone + Debug + Hash + PartialEq + Eq + Into<u64> + BitXor<u64> + store::StoreValue;

    type InputId: Clone + Debug + Hash + PartialEq + Eq + Into<u64> + BitXor<u64> + store::StoreValue;

    type OutputId: Clone + Debug + Hash + PartialEq + Eq + Into<u64> + BitXor<u64> + store::StoreValue;

    type AttributeId: Clone + Debug + Hash + PartialEq + Eq + Into<u64> + BitXor<u64> + store::StoreValue;

    type K: desc::IdType;

    type V: Default + Debug + Clone + 'static;

    fn next_node_id(&mut self) -> Self::NodeId;

    fn next_input_id(&mut self) -> Self::InputId;

    fn next_output_id(&mut self) -> Self::OutputId;

    fn next_attribute_id(&mut self) -> Self::AttributeId;
}

} // verus!
