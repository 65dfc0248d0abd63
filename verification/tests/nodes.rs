use sokoban::tree::Tree;

#[test]
fn test_parent() {
    let mut tree: Tree<i32> = Tree::new();
    let root = tree.add(None, 0);
    let mid = tree.add(Some(root), 1);
    let leaf = tree.add(Some(mid), 2);

    // the parent of the node holding 1 is the root, which holds 0
    let parent_id = tree.get_parent(mid).unwrap().0.unwrap();
    assert_eq!(tree.get_parent(parent_id).unwrap().1, 0);
    assert_eq!(tree.get_parent(leaf).unwrap().0, Some(mid));
}

#[test]
fn ids_are_indices() {
    let mut tree: Tree<i32> = Tree::new();
    assert_eq!(tree.len(), 0);
    let a = tree.add(None, 7);
    assert_eq!(a, 0);
    assert_eq!(tree.len(), 1);
    assert_eq!(tree.get_parent(0).unwrap(), &(None, 7));
    assert_eq!(tree.get_parent(1), None);
}
