use atlier::store::Store;
use std::collections::hash_map::DefaultHasher;
use std::collections::{BTreeSet, HashSet};
use std::hash::{Hash, Hasher};

fn std_code(v: &str) -> u64 {
    let mut h = DefaultHasher::default();
    v.hash(&mut h);
    h.finish()
}

fn chain() -> Store<&'static str> {
    Store::<&'static str>::default()
        .node("a")
        .node("b")
        .node("c")
        .node("d")
        .link("a", "b")
        .link("b", "c")
}

#[test]
fn node_then_get_finds_the_value() {
    let store = Store::<&'static str>::default().node("a");
    let (v, links) = store.get("a").expect("a was added");
    assert_eq!(*v, "a");
    assert!(links.is_empty());
    assert!(store.get("b").is_none());
}

#[test]
fn node_twice_is_node_once() {
    let once = Store::<&'static str>::default().node("a").link("a", "a");
    let twice = Store::<&'static str>::default().node("a").node("a");
    assert_eq!(once.get("a").unwrap().1, twice.get("a").unwrap().1);
    assert!(twice.visit("a").is_empty());
}

#[test]
fn link_code_is_xor_of_std_hash_codes() {
    let store = Store::<&'static str>::default().node("a").node("b").link("a", "b");
    let code = std_code("a") ^ std_code("b");
    assert!(store.get("a").unwrap().1.contains(&code));
    assert!(store.get("b").unwrap().1.contains(&code));
    assert_eq!(store.get("a").unwrap().1.len(), 1);
}

#[test]
fn link_is_symmetric() {
    let base = Store::<&'static str>::default().node("a").node("b");
    let ab = base.link("a", "b");
    let ba = base.link("b", "a");
    assert_eq!(ab.get("a").unwrap().1, ba.get("a").unwrap().1);
    assert_eq!(ab.get("b").unwrap().1, ba.get("b").unwrap().1);
}

#[test]
fn link_twice_is_link_once() {
    let base = Store::<&'static str>::default().node("a").node("b");
    let once = base.link("a", "b");
    let twice = once.link("a", "b");
    assert_eq!(once.get("a").unwrap().1, twice.get("a").unwrap().1);
    assert_eq!(twice.visit("a").len(), 1);
}

#[test]
fn link_declared_before_nodes_takes_effect() {
    let store = Store::<&'static str>::default()
        .link("component", "input")
        .node("component")
        .node("input");
    assert_eq!(store.visit("component"), vec![(Some("component"), Some("input"))]);
    assert_eq!(store.visit("input"), vec![(Some("input"), Some("component"))]);
    let mut seen = BTreeSet::new();
    let mut visited = BTreeSet::new();
    store.walk_ordered("component", &mut seen, &mut visited);
    assert!(seen.contains(&"input"));
    assert!(visited.contains(&(Some("component"), Some("input"))));
}

#[test]
fn link_waits_for_the_missing_node() {
    let waiting = Store::<&'static str>::default().node("a").link("a", "b");
    let code = std_code("a") ^ std_code("b");
    assert!(waiting.get("a").unwrap().1.contains(&code));
    assert!(waiting.visit("a").is_empty());
    assert!(waiting.get("b").is_none());
    let both = waiting.node("b");
    assert!(both.get("b").unwrap().1.contains(&code));
    assert_eq!(both.visit("a"), vec![(Some("a"), Some("b"))]);
    let mut refs = both.references("a").expect("b refers to a");
    refs.sort();
    assert_eq!(refs, vec!["b"]);
}

#[test]
fn walk_records_each_link_once_in_the_direction_it_was_taken() {
    let store = Store::<&'static str>::default()
        .node("test-node-1")
        .node("test-node-2")
        .node("test-node-3")
        .node("test-node-4")
        .link("test-node-1", "test-node-2")
        .link("test-node-2", "test-node-1")
        .link("test-node-2", "test-node-3")
        .link("test-node-4", "test-node-3");
    let mut seen = HashSet::new();
    let mut visited = HashSet::new();
    store.walk("test-node-1", &mut seen, &mut visited);
    let expected_seen: HashSet<&'static str> =
        ["test-node-1", "test-node-2", "test-node-3", "test-node-4"].into_iter().collect();
    let expected_visited: HashSet<(Option<&'static str>, Option<&'static str>)> = [
        (Some("test-node-1"), Some("test-node-2")),
        (Some("test-node-2"), Some("test-node-3")),
        (Some("test-node-3"), Some("test-node-4")),
    ]
    .into_iter()
    .collect();
    assert_eq!(seen, expected_seen);
    assert_eq!(visited, expected_visited);
}

#[test]
fn walk_on_a_cycle_records_each_link_one_way() {
    let store = Store::<&'static str>::default()
        .link("x", "y")
        .link("y", "z")
        .link("z", "x")
        .node("x")
        .node("y")
        .node("z");
    let (seen, visited) = store.edge_walk("x");
    assert_eq!(seen.len(), 3);
    assert_eq!(visited.len(), 3);
    for (a, b) in [("x", "y"), ("y", "z"), ("z", "x")] {
        let forward = visited.contains(&(Some(a), Some(b)));
        let backward = visited.contains(&(Some(b), Some(a)));
        assert!(forward != backward);
    }
    let (seen_o, visited_o) = store.edge_walk_ordered("x");
    assert_eq!(seen_o.into_iter().collect::<HashSet<_>>(), seen);
    assert_eq!(visited_o.into_iter().collect::<HashSet<_>>(), visited);
}

#[test]
fn link_to_self_changes_nothing() {
    let store = Store::<&'static str>::default().node("a").link("a", "a");
    assert!(store.get("a").unwrap().1.is_empty());
}

#[test]
fn visit_lists_every_link_once() {
    let store = Store::<&'static str>::default()
        .node("a")
        .node("b")
        .node("c")
        .link("a", "b")
        .link("a", "c");
    let mut pairs = store.visit("a");
    pairs.sort();
    assert_eq!(
        pairs,
        vec![(Some("a"), Some("b")), (Some("a"), Some("c"))]
    );
    assert_eq!(store.visit("b"), vec![(Some("b"), Some("a"))]);
    assert!(store.visit("missing").is_empty());
}

#[test]
fn references_lists_linked_nodes() {
    let store = chain();
    let mut refs = store.references("b").expect("b is linked");
    refs.sort();
    assert_eq!(refs, vec!["a", "c"]);
    assert!(store.references("d").is_none());
    assert!(store.references("missing").is_none());
}

#[test]
fn edge_walk_sees_the_reachable_nodes() {
    let store = chain();
    let (seen, visited) = store.edge_walk("a");
    let expected: HashSet<&'static str> = ["a", "b", "c"].into_iter().collect();
    assert_eq!(seen, expected);
    assert_eq!(visited.len(), 2);
    assert!(
        visited.contains(&(Some("a"), Some("b"))) || visited.contains(&(Some("b"), Some("a")))
    );
    assert!(
        visited.contains(&(Some("b"), Some("c"))) || visited.contains(&(Some("c"), Some("b")))
    );
}

#[test]
fn edge_walk_ordered_sees_the_reachable_nodes() {
    let store = chain();
    let (seen, visited) = store.edge_walk_ordered("c");
    let expected: BTreeSet<&'static str> = ["a", "b", "c"].into_iter().collect();
    assert_eq!(seen, expected);
    let edges: BTreeSet<(Option<&'static str>, Option<&'static str>)> =
        [(Some("c"), Some("b")), (Some("b"), Some("a"))].into_iter().collect();
    assert_eq!(visited, edges);
}

#[test]
fn walk_from_an_isolated_node_sees_only_it() {
    let store = chain();
    let (seen, visited) = store.edge_walk("d");
    assert_eq!(seen.len(), 1);
    assert!(seen.contains("d"));
    assert!(visited.is_empty());
}

#[test]
fn walk_from_a_seen_value_changes_nothing() {
    let store = chain();
    let mut seen: HashSet<&'static str> = ["a"].into_iter().collect();
    let mut visited = HashSet::new();
    store.walk("a", &mut seen, &mut visited);
    assert_eq!(seen.len(), 1);
    assert!(visited.is_empty());
}

#[test]
fn walk_stops_at_seen_nodes() {
    let store = chain();
    let mut seen: BTreeSet<&'static str> = ["b"].into_iter().collect();
    let mut visited = BTreeSet::new();
    store.walk_ordered("a", &mut seen, &mut visited);
    let expected: BTreeSet<&'static str> = ["a", "b"].into_iter().collect();
    assert_eq!(seen, expected);
    let edges: BTreeSet<(Option<&'static str>, Option<&'static str>)> =
        [(Some("a"), Some("b"))].into_iter().collect();
    assert_eq!(visited, edges);
}

#[test]
fn edge_edge_adds_and_links() {
    let store = Store::<&'static str>::default().edge_edge("x", "y");
    assert_eq!(store.visit("x"), vec![(Some("x"), Some("y"))]);
    assert_eq!(store.visit("y"), vec![(Some("y"), Some("x"))]);
}

#[test]
fn clone_keeps_the_graph() {
    let store = chain();
    let copy = store.clone();
    assert_eq!(copy.references("b").map(|r| r.len()), Some(2));
    assert_eq!(copy.get("a").unwrap().1, store.get("a").unwrap().1);
}
