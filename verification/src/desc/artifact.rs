use crate::desc::content::ContentStore;
use crate::desc::{hashes_id, ContentId, Descriptor, IdType, Name, Store};
use crate::store::StoreValue;
use crate::system::filesystem::discriminant_bytes;
use std::collections::hash_map::DefaultHasher;
use std::hash::Hasher;
use vstd::std_specs::hash::DefaultHasherAdditionalSpecFns;
use crate::Node;
use std::any::TypeId;
use std::ops::BitXor;
use vstd::prelude::*;
use vstd::std_specs::convert::{FromSpecImpl, IntoSpec};
use vstd::std_specs::hash::obeys_key_model;
use vstd::std_specs::ops::BitXorSpecImpl;

verus! {

/// Content that is described by an id of type `Type`, a name and the type of the content.
pub trait ArtifactContent: Sized {
    type Type: IdType;

    fn new(id: Self::Type, name: String, typeid: TypeId) -> Self;
}

/// The id of one part of a node: the node itself, or one of its attributes, inputs or outputs.
#[derive(Debug, Hash, PartialEq, Eq)]
pub enum ArtifactId<N> where N: Node {
    Node(N::NodeId),
    Attribute(N::AttributeId),
    Input(N::InputId),
    Output(N::OutputId),
}

impl<N> IdType for ArtifactId<N> where N: Node {
    type Id = Self;
}

impl<N> Clone for ArtifactId<N> where N: Node {
    /// The same kind of id, holding a clone of the id.
    fn clone(&self) -> (r: Self)
        ensures
            match (*self, r) {
                (ArtifactId::Node(a), ArtifactId::Node(b)) => cloned(a, b),
                (ArtifactId::Attribute(a), ArtifactId::Attribute(b)) => cloned(a, b),
                (ArtifactId::Input(a), ArtifactId::Input(b)) => cloned(a, b),
                (ArtifactId::Output(a), ArtifactId::Output(b)) => cloned(a, b),
                _ => false,
            },
    {
        match self {
            ArtifactId::Node(a) => ArtifactId::Node(a.clone()),
            ArtifactId::Attribute(a) => ArtifactId::Attribute(a.clone()),
            ArtifactId::Input(a) => ArtifactId::Input(a.clone()),
            ArtifactId::Output(a) => ArtifactId::Output(a.clone()),
        }
    }
}

impl<N> StoreValue for ArtifactId<N> where N: Node {
    /// Hashing an artifact id writes its kind, as the derived hash of an enum writes its
    /// discriminant, then the id it holds.
    open spec fn hash_writes(&self) -> Seq<Seq<u8>> {
        match self {
            ArtifactId::Node(a) => seq![discriminant_bytes(0)] + a.hash_writes(),
            ArtifactId::Attribute(a) => seq![discriminant_bytes(1)] + a.hash_writes(),
            ArtifactId::Input(a) => seq![discriminant_bytes(2)] + a.hash_writes(),
            ArtifactId::Output(a) => seq![discriminant_bytes(3)] + a.hash_writes(),
        }
    }

    fn write_hash(&self, state: &mut DefaultHasher) {
        let kind: u8 = match self {
            ArtifactId::Node(_) => 0,
            ArtifactId::Attribute(_) => 1,
            ArtifactId::Input(_) => 2,
            ArtifactId::Output(_) => 3,
        };
        let bytes: [u8; 8] = [kind, 0, 0, 0, 0, 0, 0, 0];
        state.write(&bytes);
        assert(bytes@ =~= discriminant_bytes(kind));
        let ghost mid = state@;
        match self {
            ArtifactId::Node(a) => a.write_hash(state),
            ArtifactId::Attribute(a) => a.write_hash(state),
            ArtifactId::Input(a) => a.write_hash(state),
            ArtifactId::Output(a) => a.write_hash(state),
        }
        assert(final(state)@ =~= old(state)@ + self.hash_writes());
    }

    fn duplicate(&self) -> (r: Self) {
        match self {
            ArtifactId::Node(a) => ArtifactId::Node(a.duplicate()),
            ArtifactId::Attribute(a) => ArtifactId::Attribute(a.duplicate()),
            ArtifactId::Input(a) => ArtifactId::Input(a.duplicate()),
            ArtifactId::Output(a) => ArtifactId::Output(a.duplicate()),
        }
    }
}

/// `T` has a specified conversion into `u64`, and a clone converts as the original does.
pub open spec fn converts_consistently<T: Clone + Into<u64>>() -> bool {
    &&& <T as IntoSpec<u64>>::obeys_into_spec()
    &&& forall|a: T, b: T| #[trigger] cloned::<T>(a, b) ==> a.into_spec() == b.into_spec()
}

/// Every id type of `N` has a specified conversion into `u64`, kept by cloning.
pub open spec fn ids_convert<N: Node>() -> bool {
    &&& converts_consistently::<N::NodeId>()
    &&& converts_consistently::<N::AttributeId>()
    &&& converts_consistently::<N::InputId>()
    &&& converts_consistently::<N::OutputId>()
}

/// The `u64` that an artifact id converts into: that of the id it holds.
pub open spec fn artifact_code<N: Node>(a: ArtifactId<N>) -> u64 {
    match a {
        ArtifactId::Node(n) => n.into_spec(),
        ArtifactId::Attribute(a) => a.into_spec(),
        ArtifactId::Input(i) => i.into_spec(),
        ArtifactId::Output(o) => o.into_spec(),
    }
}

impl<N> From<ArtifactId<N>> for u64 where N: Node {
    /// An artifact id converts into the `u64` of the id it holds.
    fn from(a: ArtifactId<N>) -> (r: u64) {
        match a {
            ArtifactId::<N>::Node(n) => n.into(),
            ArtifactId::<N>::Attribute(a) => a.into(),
            ArtifactId::<N>::Input(i) => i.into(),
            ArtifactId::<N>::Output(o) => o.into(),
        }
    }
}

impl<N> FromSpecImpl<ArtifactId<N>> for u64 where N: Node {
    open spec fn obeys_from_spec() -> bool {
        ids_convert::<N>()
    }

    open spec fn from_spec(a: ArtifactId<N>) -> u64 {
        artifact_code(a)
    }
}

impl<N> BitXor<u64> for ArtifactId<N> where N: Node {
    type Output = u64;

    /// The `u64` of the id this artifact id holds, xor `rhs`.
    fn bitxor(self, rhs: u64) -> (r: u64) {
        match self {
            ArtifactId::<N>::Node(n) => n.into() ^ rhs,
            ArtifactId::<N>::Attribute(a) => a.into() ^ rhs,
            ArtifactId::<N>::Input(i) => i.into() ^ rhs,
            ArtifactId::<N>::Output(o) => o.into() ^ rhs,
        }
    }
}

impl<N> BitXorSpecImpl<u64> for ArtifactId<N> where N: Node {
    open spec fn obeys_bitxor_spec() -> bool {
        ids_convert::<N>()
    }

    open spec fn bitxor_req(self, rhs: u64) -> bool {
        true
    }

    open spec fn bitxor_spec(self, rhs: u64) -> u64 {
        artifact_code(self) ^ rhs
    }
}

/// A part of a node, with its id, name, content type, and the id of its content.
#[derive(Debug)]
pub struct Artifact<N> where N: Node {
    pub id: ArtifactId<N>,
    pub name: Name,
    pub type_id: TypeId,
    pub content_id: ContentId,
}

/// A collection of artifacts.
#[derive(Debug)]
pub struct ArtifactCollection<N> where N: Node {
    pub elems: Vec<Artifact<N>>,
}

impl<N> Descriptor for Artifact<N> where N: Node {
    type Node = N;

    type Store = ContentStore<N>;

    type Value = N::V;

    /// The name of this artifact.
    fn name(&self) -> (r: Name)
        ensures
            r == self.name,
    {
        self.name.clone()
    }

    /// A copy of this artifact's content in `store`, if there is any.
    fn content(&self, store: &Self::Store) -> (r: Option<Self::Value>)
        ensures
            obeys_key_model::<ContentId>() ==> match r {
                Some(v) => store@.contains_key(self.content_id) && cloned::<N::V>(
                    store@[self.content_id],
                    v,
                ),
                None => !store@.contains_key(self.content_id),
            },
    {
        store.get(self.content_id)
    }
}

impl<N> ArtifactContent for Artifact<N> where N: Node {
    type Type = ArtifactId<N>;

    /// An artifact with the id `id`, the name `name` and the content type `typeid`, whose content
    /// id is made from `id` and `typeid`.
    fn new(id: Self::Type, name: String, typeid: TypeId) -> (r: Self)
        ensures
            r.id == id,
            r.name == Name(name),
            r.type_id == typeid,
            r.content_id.typeid == typeid,
            ids_convert::<N>() ==> r.content_id.id == artifact_code(id),
            hashes_id(r.content_id.hash, id),
    {
        let content_id = ContentId::new::<ArtifactId<N>>(id.duplicate(), typeid);
        Artifact::<N> { id: id, type_id: typeid, content_id: content_id, name: Name::from(name) }
    }
}

impl<N> Artifact<N> where N: Node {
    /// An artifact for the input `id` of a node.
    pub fn new_input(id: N::InputId, name: String, typeid: TypeId) -> (r: Self)
        ensures
            r.id == ArtifactId::<N>::Input(id),
            r.name == Name(name),
            r.type_id == typeid,
            r.content_id.typeid == typeid,
            ids_convert::<N>() ==> r.content_id.id == artifact_code(ArtifactId::<N>::Input(id)),
            hashes_id(r.content_id.hash, ArtifactId::<N>::Input(id)),
    {
        Artifact::<N>::new(ArtifactId::<N>::Input(id), name, typeid)
    }

    /// An artifact for the output `id` of a node.
    pub fn new_output(id: N::OutputId, name: String, typeid: TypeId) -> (r: Self)
        ensures
            r.id == ArtifactId::<N>::Output(id),
            r.name == Name(name),
            r.type_id == typeid,
            r.content_id.typeid == typeid,
            ids_convert::<N>() ==> r.content_id.id == artifact_code(ArtifactId::<N>::Output(id)),
            hashes_id(r.content_id.hash, ArtifactId::<N>::Output(id)),
    {
        Artifact::<N>::new(ArtifactId::<N>::Output(id), name, typeid)
    }

    /// An artifact for the attribute `id` of a node.
    pub fn new_attribute(id: N::AttributeId, name: String, typeid: TypeId) -> (r: Self)
        ensures
            r.id == ArtifactId::<N>::Attribute(id),
            r.name == Name(name),
            r.type_id == typeid,
            r.content_id.typeid == typeid,
            ids_convert::<N>() ==> r.content_id.id == artifact_code(ArtifactId::<N>::Attribute(id)),
            hashes_id(r.content_id.hash, ArtifactId::<N>::Attribute(id)),
    {
        Artifact::<N>::new(ArtifactId::<N>::Attribute(id), name, typeid)
    }
}

/// Hashing an artifact id tells its kind: two artifact ids that write the same byte strings are of
/// the same kind (node, attribute, input or output) and hold ids that write the same byte
/// strings. So the content ids of, say, the input 1 and the attribute 1 of a node are hashes of
/// different byte strings, whatever the type id writes before them.
pub proof fn lemma_artifact_writes_tell_kinds_apart<N: Node>(
    a: ArtifactId<N>,
    b: ArtifactId<N>,
    type_writes: Seq<Seq<u8>>,
)
    ensures
        a.hash_writes() == b.hash_writes() ==> match (a, b) {
            (ArtifactId::Node(x), ArtifactId::Node(y)) => x.hash_writes() == y.hash_writes(),
            (ArtifactId::Attribute(x), ArtifactId::Attribute(y)) => x.hash_writes() == y.hash_writes(),
            (ArtifactId::Input(x), ArtifactId::Input(y)) => x.hash_writes() == y.hash_writes(),
            (ArtifactId::Output(x), ArtifactId::Output(y)) => x.hash_writes() == y.hash_writes(),
            _ => false,
        },
        a.hash_writes() != b.hash_writes() ==> type_writes + a.hash_writes() != type_writes
            + b.hash_writes(),
{
    if a.hash_writes() == b.hash_writes() {
        assert(a.hash_writes()[0] == b.hash_writes()[0]);
        assert(a.hash_writes()[0][0] == b.hash_writes()[0][0]);
        assert(a.hash_writes().drop_first() == b.hash_writes().drop_first());
        match (a, b) {
            (ArtifactId::Node(x), ArtifactId::Node(y)) => {
                assert(a.hash_writes().drop_first() =~= x.hash_writes());
                assert(b.hash_writes().drop_first() =~= y.hash_writes());
            },
            (ArtifactId::Attribute(x), ArtifactId::Attribute(y)) => {
                assert(a.hash_writes().drop_first() =~= x.hash_writes());
                assert(b.hash_writes().drop_first() =~= y.hash_writes());
            },
            (ArtifactId::Input(x), ArtifactId::Input(y)) => {
                assert(a.hash_writes().drop_first() =~= x.hash_writes());
                assert(b.hash_writes().drop_first() =~= y.hash_writes());
            },
            (ArtifactId::Output(x), ArtifactId::Output(y)) => {
                assert(a.hash_writes().drop_first() =~= x.hash_writes());
                assert(b.hash_writes().drop_first() =~= y.hash_writes());
            },
            _ => {},
        }
    } else {
        if type_writes + a.hash_writes() == type_writes + b.hash_writes() {
            assert((type_writes + a.hash_writes()).subrange(type_writes.len() as int, (type_writes
                + a.hash_writes()).len() as int) =~= a.hash_writes());
            assert((type_writes + b.hash_writes()).subrange(type_writes.len() as int, (type_writes
                + b.hash_writes()).len() as int) =~= b.hash_writes());
        }
    }
}

/// The content id of an artifact hashes its kind as well as the id it holds: after any type-id
/// writes, an artifact id writes more than the bare id it holds, its kind first.
pub proof fn lemma_artifact_content_covers_kind<N: Node>(id: N::AttributeId, type_writes: Seq<Seq<u8>>)
    ensures
        ArtifactId::<N>::Attribute(id).hash_writes() == seq![discriminant_bytes(1)] + id.hash_writes(),
        type_writes + ArtifactId::<N>::Attribute(id).hash_writes() != type_writes + id.hash_writes(),
{
    assert((type_writes + ArtifactId::<N>::Attribute(id).hash_writes()).len() == (type_writes
        + id.hash_writes()).len() + 1);
}

} // verus!
