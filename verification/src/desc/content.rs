use crate::desc::{ContentId, ContentUpdate, Listener, Store};
use crate::Node;
use std::collections::HashMap;
use vstd::prelude::*;
use vstd::std_specs::hash::obeys_key_model;

verus! {

broadcast use vstd::std_specs::hash::group_hash_axioms;

/// Holds the content of nodes of type `N`, keyed by content id.
#[derive(Debug)]
pub struct ContentStore<N> where N: Node {
    items: HashMap<ContentId, N::V>,
}

impl<N> View for ContentStore<N> where N: Node {
    type V = Map<ContentId, N::V>;

    closed spec fn view(&self) -> Map<ContentId, N::V> {
        self.items@
    }
}

impl<N> Default for ContentStore<N> where N: Node {
    /// An empty content store.
    fn default() -> (r: Self)
        ensures
            r@ == Map::<ContentId, N::V>::empty(),
    {
        ContentStore::<N> { items: HashMap::new() }
    }
}

impl<N> Listener for ContentStore<N> where N: Node {
    type Value = N::V;

    /// A content store takes note of each update; it keeps no record of them.
    fn listen(&self, update: ContentUpdate<Self::Value>) {
    }
}

impl<N> Store<N> for ContentStore<N> where Self: Listener<Value = N::V>, N: Node {
    /// A copy of the content under `id`, if there is any.
    fn get(&self, id: ContentId) -> (r: Option<N::V>)
        ensures
            obeys_key_model::<ContentId>() ==> match r {
                Some(v) => self@.contains_key(id) && cloned::<N::V>(self@[id], v),
                None => !self@.contains_key(id),
            },
    {
        match self.items.get(&id) {
            Some(v) => Some(v.clone()),
            None => None,
        }
    }

    /// Stores a copy of `v` under `content_id`, replacing what was there, and tells the listener
    /// with [`ContentUpdate::replacing`]: from the replaced content, or the default, to a copy of `v`.
    fn set(&mut self, content_id: ContentId, v: &N::V)
        ensures
            obeys_key_model::<ContentId>() ==> exists|x: N::V|
                cloned::<N::V>(*v, x) && final(self)@ == old(self)@.insert(content_id, x),
    {
        let stored = v.clone();
        let ghost copy = stored;
        let replaced = self.items.insert(content_id, stored);
        self.listen(ContentUpdate::replacing(content_id, replaced, v));
        assert(cloned::<N::V>(*v, copy));
    }
}

} // verus!
