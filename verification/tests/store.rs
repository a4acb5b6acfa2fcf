use atlier::store::{Store, StoreValue};
use std::collections::hash_map::DefaultHasher;
use std::collections::{BTreeSet, HashSet};
use std::hash::Hash;
use vstd::seq::Seq;

#[test]
fn test_store() {
    let store = Store::<&'static str>::default();
    let store = store
        .node("test-node-1")
        .node("test-node-2")
        .node("test-node-3")
        .node("test-node-4");
    let store = store
        .link("test-node-1", "test-node-2")
        .link("test-node-2", "test-node-1")
        .link("test-node-2", "test-node-3")
        .link("test-node-4", "test-node-3");

    let visited = store.visit("test-node-1").iter().any(|v| match v {
        (Some("test-node-1"), Some("test-node-2")) => true,
        _ => false,
    });

    assert!(visited, "did not find the expected link");

    let mut seen: HashSet<&'static str> = HashSet::new();
    let mut visited: HashSet<(Option<&'static str>, Option<&'static str>)> = HashSet::new();

    store.walk("test-node-1", &mut seen, &mut visited);

    seen.iter().for_each(|v| println!("{:?}", v));
    visited.iter().for_each(|v| println!("{:?}", v));

    let mut seen_ordered: BTreeSet<&'static str> = BTreeSet::new();
    let mut visited_ordered: BTreeSet<(Option<&'static str>, Option<&'static str>)> =
        BTreeSet::new();

    store.walk_ordered("test-node-1", &mut seen_ordered, &mut visited_ordered);

    seen_ordered.iter().for_each(|v| println!("{:?}", v));
    visited_ordered.iter().for_each(|v| println!("{:?}", v));
}

struct IndirectIndexer();

impl Into<Indexer> for IndirectIndexer {
    fn into(self) -> Indexer {
        Indexer("test".to_string(), 0)
    }
}

#[derive(Default, Clone, Hash, PartialEq, PartialOrd, Eq, Ord)]
struct Indexer(String, u64);

impl StoreValue for Indexer {
    fn hash_writes(&self) -> Seq<Seq<u8>> {
        panic!("hash_writes is a specification function; nothing calls it at run time")
    }

    fn write_hash(&self, state: &mut DefaultHasher) {
        self.hash(state)
    }

    fn duplicate(&self) -> Self {
        self.clone()
    }
}

#[test]
fn test_indexer() {
    let indexer = Store::<Indexer>::default();

    let indexer = indexer
        .node(Indexer("test".to_string(), 5))
        .edge_node(IndirectIndexer());

    let indexer = indexer
        .link(
            Indexer("test".to_string(), 5),
            Indexer("test".to_string(), 5),
        )
        .edge_link(IndirectIndexer(), Indexer("test".to_string(), 5));

    let (seen_ordered, visited_ordered) = indexer.edge_walk_ordered(IndirectIndexer());

    assert!(seen_ordered.contains(&IndirectIndexer().into()));
    assert!(visited_ordered.contains(&(
        Some(IndirectIndexer().into()),
        Some(Indexer("test".to_string(), 5))
    )));
}
