//! Descriptors of content: names, content ids, and the stores that hold content.

pub mod artifact;
pub mod content;

use crate::store::StoreValue;
use crate::Node;
use std::any::TypeId;
use std::collections::hash_map::DefaultHasher;
use std::fmt::Debug;
use std::hash::{Hash, Hasher};
use std::ops::BitXor;
use vstd::prelude::*;
use vstd::std_specs::convert::{FromSpecImpl, IntoSpec};
use vstd::std_specs::hash::DefaultHasherAdditionalSpecFns;
use vstd::std_specs::ops::BitXorSpecImpl;

verus! {

#[verifier::external_type_specification]
#[verifier::external_body]
pub struct ExTypeId(TypeId);

/// A name, a common component many entities have.
#[derive(Debug)]
pub struct Name(pub String);

impl Clone for Name {
    fn clone(&self) -> (r: Self)
        ensures
            r == *self,
    {
        Name(self.0.clone())
    }
}

impl From<String> for Name {
    fn from(n: String) -> (r: Self) {
        Name(n)
    }
}

impl FromSpecImpl<String> for Name {
    open spec fn obeys_from_spec() -> bool {
        true
    }

    open spec fn from_spec(n: String) -> Self {
        Name(n)
    }
}

/// A type that serves as an id.
pub trait IdType {
    type Id: Clone + Debug + Hash + PartialEq + Eq + Into<u64> + BitXor<u64>;
}

/// `hash` is a content id's hash made for `id`: the code a fresh `DefaultHasher` finishes with
/// after what hashing a type id writes, then what hashing `id` itself writes.
pub open spec fn hashes_id<ID: StoreValue>(hash: u64, id: ID) -> bool {
    exists|type_writes: Seq<Seq<u8>>| hash == DefaultHasher::spec_finish(type_writes + id.hash_writes())
}

/// The id under which content is stored: an id, the type of the content, and a hash of both.
#[derive(Copy, Clone, Debug, Hash, PartialEq, Eq)]
pub struct ContentId {
    pub id: u64,
    pub typeid: TypeId,
    pub hash: u64,
}

/// Feeds `value` into `state` with `Hash::hash`.
/// What it writes into the hasher is left unsaid.
#[verifier::external_body]
fn feed_hash<H: Hash>(value: &H, state: &mut DefaultHasher) {
    value.hash(state)
}

impl ContentId {
    /// A content id for the id `id` of content of the type `typeid`; its hash is a hash of both:
    /// the code a fresh `DefaultHasher` finishes with after the type id and then the id itself
    /// (not only its `u64`) are hashed into it. What hashing the type id writes is left unsaid.
    pub fn new<ID>(id: ID, typeid: TypeId) -> (r: Self)
        where
            ID: Hash + Into<u64> + StoreValue,
        ensures
            r.typeid == typeid,
            <ID as IntoSpec<u64>>::obeys_into_spec() ==> r.id == id.into_spec(),
            hashes_id(r.hash, id),
    {
        let mut hasher = DefaultHasher::new();
        feed_hash(&typeid, &mut hasher);
        let ghost type_writes = hasher@;
        id.write_hash(&mut hasher);
        let hash = hasher.finish();
        assert(hasher@ == type_writes + id.hash_writes());
        ContentId { id: id.into(), hash: hash, typeid: typeid }
    }
}

impl IdType for ContentId {
    type Id = Self;
}

impl From<ContentId> for u64 {
    /// A content id converts into its hash.
    fn from(c: ContentId) -> (r: u64) {
        c.hash
    }
}

impl FromSpecImpl<ContentId> for u64 {
    open spec fn obeys_from_spec() -> bool {
        true
    }

    open spec fn from_spec(c: ContentId) -> u64 {
        c.hash
    }
}

impl BitXor<u64> for ContentId {
    type Output = u64;

    /// The hash of the content id, xor `rhs`.
    fn bitxor(self, rhs: u64) -> (r: u64) {
        self.hash ^ rhs
    }
}

impl BitXorSpecImpl<u64> for ContentId {
    open spec fn obeys_bitxor_spec() -> bool {
        true
    }

    open spec fn bitxor_req(self, rhs: u64) -> bool {
        true
    }

    open spec fn bitxor_spec(self, rhs: u64) -> u64 {
        self.hash ^ rhs
    }
}

/// An update of the content under `content_id` from `pre` to `update`.
#[derive(Debug, Hash, PartialEq, Eq)]
pub struct ContentUpdate<V> where V: Default + Debug + Clone + 'static {
    content_id: ContentId,
    pre: V,
    update: V,
}

impl<V> ContentUpdate<V> where V: Default + Debug + Clone + 'static {
    /// The content id that was updated.
    pub closed spec fn spec_content_id(&self) -> ContentId {
        self.content_id
    }

    /// The content before the update.
    pub closed spec fn spec_pre(&self) -> V {
        self.pre
    }

    /// The content after the update.
    pub closed spec fn spec_update(&self) -> V {
        self.update
    }

    /// The update of the content under `content_id` from `pre`, or the default content when
    /// there was none, to a copy of `update`.
    pub fn replacing(content_id: ContentId, pre: Option<V>, update: &V) -> (r: Self)
        ensures
            r.spec_content_id() == content_id,
            match pre {
                Some(p) => r.spec_pre() == p,
                None => call_ensures(V::default, (), r.spec_pre()),
            },
            cloned::<V>(*update, r.spec_update()),
    {
        let pre = match pre {
            Some(p) => p,
            None => V::default(),
        };
        ContentUpdate { content_id, pre, update: update.clone() }
    }
}

/// Describes a piece of content: its name, and how to find it in a store.
pub trait Descriptor {
    type Node: Node;

    type Store: Store<Self::Node>;

    type Value: Default + Debug + Clone + 'static;

    fn name(&self) -> Name;

    fn content(&self, store: &Self::Store) -> Option<Self::Value>;
}

/// Listens to updates of content.
pub trait Listener {
    type Value: Default + Debug + Clone + 'static;

    fn listen(&self, update: ContentUpdate<Self::Value>);
}

/// Holds the content of nodes of type `N`, by content id.
pub trait Store<N> where N: Node {
    fn get(&self, id: ContentId) -> Option<N::V>;

    fn set(&mut self, id: ContentId, v: &N::V);
}

} // verus!
