use atlier::desc::artifact::{Artifact, ArtifactCollection, ArtifactContent, ArtifactId};
use atlier::desc::content::ContentStore;
use atlier::desc::{ContentId, ContentUpdate, Descriptor, Name, Store};
use atlier::Node;
use std::any::TypeId;

#[derive(Clone, Debug, Hash, PartialEq, Eq, Default)]
struct Editor(u64);

impl Node for Editor {
    type NodeId = u64;
    type InputId = u64;
    type OutputId = u64;
    type AttributeId = u64;
    type K = ContentId;
    type V = i64;

    fn next_node_id(&mut self) -> u64 {
        self.0 += 1;
        self.0
    }

    fn next_input_id(&mut self) -> u64 {
        self.next_node_id()
    }

    fn next_output_id(&mut self) -> u64 {
        self.next_node_id()
    }

    fn next_attribute_id(&mut self) -> u64 {
        self.next_node_id()
    }
}

#[test]
fn content_id_holds_id_and_type() {
    let c = ContentId::new(5u64, TypeId::of::<i64>());
    assert_eq!(c.id, 5);
    assert_eq!(c.typeid, TypeId::of::<i64>());
    let as_u64: u64 = c.into();
    assert_eq!(as_u64, c.hash);
    assert_eq!(c ^ 3u64, c.hash ^ 3);
}

#[test]
fn content_id_hash_depends_on_id_and_type() {
    let a = ContentId::new(5u64, TypeId::of::<i64>());
    let b = ContentId::new(6u64, TypeId::of::<i64>());
    let c = ContentId::new(5u64, TypeId::of::<String>());
    let a2 = ContentId::new(5u64, TypeId::of::<i64>());
    assert_ne!(a.hash, b.hash);
    assert_ne!(a.hash, c.hash);
    assert_eq!(a, a2);
}

#[test]
fn artifact_ids_convert_to_their_id() {
    assert_eq!(u64::from(ArtifactId::<Editor>::Output(9)), 9);
    assert_eq!(u64::from(ArtifactId::<Editor>::Node(4)), 4);
    assert_eq!(ArtifactId::<Editor>::Input(12) ^ 5u64, 12 ^ 5);
    assert_eq!(ArtifactId::<Editor>::Attribute(1) ^ 1u64, 0);
}

#[test]
fn artifacts_carry_their_parts() {
    let mut editor = Editor::default();
    let input = Artifact::<Editor>::new_input(editor.next_input_id(), "lhs".to_string(), TypeId::of::<i64>());
    let output = Artifact::<Editor>::new_output(editor.next_output_id(), "sum".to_string(), TypeId::of::<i64>());
    let attribute =
        Artifact::<Editor>::new_attribute(editor.next_attribute_id(), "rhs".to_string(), TypeId::of::<i64>());
    assert_eq!(input.id, ArtifactId::Input(1));
    assert_eq!(output.id, ArtifactId::Output(2));
    assert_eq!(attribute.id, ArtifactId::Attribute(3));
    assert_eq!(input.name().0, "lhs");
    assert_eq!(output.type_id, TypeId::of::<i64>());
    assert_eq!(attribute.content_id.id, 3);
    assert_eq!(input.content_id, ContentId::new(ArtifactId::<Editor>::Input(1), TypeId::of::<i64>()));
    let collection = ArtifactCollection { elems: vec![input, output] };
    assert_eq!(collection.elems.len(), 2);
    let direct = Artifact::<Editor>::new(ArtifactId::Node(8), "node".to_string(), TypeId::of::<i64>());
    assert_eq!(direct.id, ArtifactId::Node(8));
}

#[test]
fn content_store_reads_back_what_was_set() {
    let mut store = ContentStore::<Editor>::default();
    let lhs = Artifact::<Editor>::new_attribute(1, "lhs".to_string(), TypeId::of::<i64>());
    let rhs = Artifact::<Editor>::new_attribute(2, "rhs".to_string(), TypeId::of::<i64>());
    assert_eq!(lhs.content(&store), None);
    store.set(lhs.content_id, &10);
    assert_eq!(store.get(lhs.content_id), Some(10));
    assert_eq!(lhs.content(&store), Some(10));
    assert_eq!(rhs.content(&store), None);
    store.set(lhs.content_id, &14);
    assert_eq!(lhs.content(&store), Some(14));
}

#[test]
fn names_convert_from_strings() {
    let n = Name::from("test".to_string());
    assert_eq!(n.clone().0, "test");
}

#[test]
fn content_update_starts_from_the_default_when_nothing_was_there() {
    let id = ContentId::new(7u64, TypeId::of::<i64>());
    let fresh = ContentUpdate::<i64>::replacing(id, None, &5);
    assert_eq!(fresh, ContentUpdate::<i64>::replacing(id, Some(0), &5));
    assert_ne!(fresh, ContentUpdate::<i64>::replacing(id, Some(3), &5));
    assert_ne!(fresh, ContentUpdate::<i64>::replacing(id, None, &6));
}
