mod node;

pub use node::{discriminant_bytes, text_writes, FSNode};

use crate::store::{with_link, with_node, Store, StoreModel};
use vstd::prelude::*;
use vstd::std_specs::convert::FromSpecImpl;

verus! {

/// A filesystem, held as a graph of filesystem nodes.
pub struct Filesystem {
    store: Store<FSNode>,
}

impl View for Filesystem {
    type V = StoreModel<FSNode>;

    closed spec fn view(&self) -> StoreModel<FSNode> {
        self.store@
    }
}

/// The graph of a fresh filesystem: the root and the default volume, linked.
pub open spec fn default_filesystem() -> Map<u64, (FSNode, Set<u64>)> {
    with_link(
        with_node(with_node(Map::empty(), Map::empty(), FSNode::Root), Map::empty(), FSNode::Volume(".default")),
        FSNode::Root,
        FSNode::Volume(".default"),
    )
}

impl Clone for Filesystem {
    fn clone(&self) -> (r: Self)
        ensures
            r@ == self@,
    {
        Filesystem { store: self.store.clone() }
    }
}

impl Default for Filesystem {
    /// A filesystem with the root linked to the default volume.
    fn default() -> (r: Self)
        ensures
            r@.nodes == default_filesystem(),
            r@.pending == Map::<u64, Set<u64>>::empty(),
    {
        let root = Store::<FSNode>::default().node(FSNode::Root);
        assert(root@.pending =~= Map::empty());
        let volume = root.node(FSNode::default());
        assert(volume@.pending =~= Map::empty());
        let linked = volume.link(FSNode::Root, FSNode::default());
        assert(linked@.pending =~= Map::empty());
        Self { store: linked }
    }
}

impl From<Filesystem> for FSNode {
    /// A filesystem is addressed as the default volume.
    fn from(fs: Filesystem) -> (r: FSNode) {
        FSNode::Volume(".default")
    }
}

impl FromSpecImpl<Filesystem> for FSNode {
    open spec fn obeys_from_spec() -> bool {
        true
    }

    open spec fn from_spec(fs: Filesystem) -> FSNode {
        FSNode::Volume(".default")
    }
}

impl Filesystem {
    /// A copy of the graph of this filesystem.
    pub fn get_store(&mut self) -> (r: Store<FSNode>)
        ensures
            r@ == old(self)@,
            final(self)@ == old(self)@,
    {
        self.store.clone()
    }

    /// A filesystem holding the graph `next`.
    pub fn update(&mut self, next: Store<FSNode>) -> (r: Self)
        ensures
            r@ == next@,
            final(self)@ == old(self)@,
    {
        Self { store: next }
    }
}

} // verus!
