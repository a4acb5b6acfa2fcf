use atlier::system::test::Test;
use atlier::system::{FSNode, Filesystem};

#[test]
fn default_filesystem_links_root_to_default_volume() {
    let mut fs = Filesystem::default();
    let store = fs.get_store();
    assert_eq!(store.visit(FSNode::Root), vec![(Some(FSNode::Root), Some(FSNode::Volume(".default")))]);
    assert_eq!(store.references(FSNode::Root), Some(vec![FSNode::Volume(".default")]));
    let (seen, visited) = store.edge_walk(FSNode::Root);
    assert_eq!(seen.len(), 2);
    assert_eq!(visited.len(), 1);
}

#[test]
fn filesystem_is_addressed_as_default_volume() {
    let node: FSNode = Filesystem::default().into();
    assert_eq!(node, FSNode::Volume(".default"));
    assert_eq!(FSNode::default(), FSNode::Volume(".default"));
}

#[test]
fn filesystem_update_holds_the_new_graph() {
    let mut fs = Filesystem::default();
    let next = fs.get_store().node(FSNode::Mount("state_1".to_string()));
    let mut updated = fs.update(next);
    assert!(updated.get_store().get(FSNode::Mount("state_1".to_string())).is_some());
    assert!(fs.get_store().get(FSNode::Mount("state_1".to_string())).is_none());
}

#[test]
fn mounts_link_and_walk() {
    let mut fs = Filesystem::default();
    let store = fs
        .get_store()
        .node(FSNode::Mount("m".to_string()))
        .link(FSNode::Volume(".default"), FSNode::Mount("m".to_string()));
    let (seen, _) = store.edge_walk_ordered(FSNode::Root);
    let seen: Vec<FSNode> = seen.into_iter().collect();
    assert_eq!(
        seen,
        vec![FSNode::Root, FSNode::Volume(".default"), FSNode::Mount("m".to_string())]
    );
}

#[test]
fn test_window_name() {
    assert_eq!(Test::name(), "test-window");
}
