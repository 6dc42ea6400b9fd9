use scraper::Tree;

#[test]
fn new_tree_has_lone_root() {
    let tree: Tree<u32> = Tree::new(7);
    let root = tree.root();
    assert_eq!(*tree.get(root), 7);
    assert!(tree.parent(root).is_none());
    assert!(tree.first_child(root).is_none());
    assert!(tree.last_child(root).is_none());
}

#[test]
fn orphan_starts_detached() {
    let mut tree: Tree<u32> = Tree::new(0);
    let a = tree.orphan(1);
    assert!(tree.parent(a).is_none());
    assert!(tree.prev_sibling(a).is_none());
    assert!(tree.next_sibling(a).is_none());
    assert!(tree.first_child(a).is_none());
}

#[test]
fn append_keeps_call_order() {
    let mut tree: Tree<u32> = Tree::new(0);
    let root = tree.root();
    let a = tree.orphan(1);
    let b = tree.orphan(2);
    let c = tree.orphan(3);
    tree.append_id(root, a);
    tree.append_id(root, b);
    tree.append_id(root, c);
    assert_eq!(tree.first_child(root), Some(a));
    assert_eq!(tree.last_child(root), Some(c));
    assert_eq!(tree.next_sibling(a), Some(b));
    assert_eq!(tree.next_sibling(b), Some(c));
    assert!(tree.next_sibling(c).is_none());
    assert_eq!(tree.prev_sibling(c), Some(b));
    assert_eq!(tree.prev_sibling(b), Some(a));
    assert!(tree.prev_sibling(a).is_none());
    assert_eq!(tree.parent(b), Some(root));
}

#[test]
fn insert_before_links_both_sides() {
    let mut tree: Tree<u32> = Tree::new(0);
    let root = tree.root();
    let a = tree.orphan(1);
    let c = tree.orphan(3);
    tree.append_id(root, a);
    tree.append_id(root, c);
    let b = tree.orphan(2);
    tree.insert_id_before(c, b);
    assert_eq!(tree.first_child(root), Some(a));
    assert_eq!(tree.next_sibling(a), Some(b));
    assert_eq!(tree.next_sibling(b), Some(c));
    assert_eq!(tree.prev_sibling(b), Some(a));
    assert_eq!(tree.last_child(root), Some(c));
    assert_eq!(tree.parent(b), Some(root));
}

#[test]
fn insert_before_first_child_updates_first() {
    let mut tree: Tree<u32> = Tree::new(0);
    let root = tree.root();
    let b = tree.orphan(2);
    tree.append_id(root, b);
    let a = tree.orphan(1);
    tree.insert_id_before(b, a);
    assert_eq!(tree.first_child(root), Some(a));
    assert_eq!(tree.last_child(root), Some(b));
    assert!(tree.prev_sibling(a).is_none());
    assert_eq!(tree.next_sibling(a), Some(b));
}

#[test]
fn detach_middle_child_rejoins_neighbours() {
    let mut tree: Tree<u32> = Tree::new(0);
    let root = tree.root();
    let a = tree.orphan(1);
    let b = tree.orphan(2);
    let c = tree.orphan(3);
    tree.append_id(root, a);
    tree.append_id(root, b);
    tree.append_id(root, c);
    tree.detach(b);
    assert!(tree.parent(b).is_none());
    assert!(tree.prev_sibling(b).is_none());
    assert!(tree.next_sibling(b).is_none());
    assert_eq!(tree.next_sibling(a), Some(c));
    assert_eq!(tree.prev_sibling(c), Some(a));
    assert_eq!(tree.first_child(root), Some(a));
    assert_eq!(tree.last_child(root), Some(c));
}

#[test]
fn detach_only_child_leaves_parent_childless() {
    let mut tree: Tree<u32> = Tree::new(0);
    let root = tree.root();
    let a = tree.orphan(1);
    tree.append_id(root, a);
    tree.detach(a);
    assert!(tree.first_child(root).is_none());
    assert!(tree.last_child(root).is_none());
    assert!(tree.parent(a).is_none());
}

#[test]
fn detach_of_detached_node_is_noop() {
    let mut tree: Tree<u32> = Tree::new(0);
    let root = tree.root();
    let a = tree.orphan(1);
    let b = tree.orphan(2);
    tree.append_id(root, a);
    tree.detach(b);
    tree.detach(b);
    assert!(tree.parent(b).is_none());
    assert_eq!(tree.first_child(root), Some(a));
    assert_eq!(tree.last_child(root), Some(a));
}

#[test]
fn detach_then_reappend_restores_as_last_child() {
    let mut tree: Tree<u32> = Tree::new(0);
    let root = tree.root();
    let a = tree.orphan(1);
    let b = tree.orphan(2);
    tree.append_id(root, a);
    tree.append_id(root, b);
    tree.detach(a);
    tree.append_id(root, a);
    assert_eq!(tree.first_child(root), Some(b));
    assert_eq!(tree.last_child(root), Some(a));
    assert_eq!(tree.prev_sibling(a), Some(b));
    assert!(tree.next_sibling(a).is_none());
    assert_eq!(tree.parent(a), Some(root));
}

#[test]
fn set_value_changes_payload_only() {
    let mut tree: Tree<u32> = Tree::new(0);
    let root = tree.root();
    let a = tree.orphan(1);
    tree.append_id(root, a);
    tree.set_value(a, 9);
    assert_eq!(*tree.get(a), 9);
    assert_eq!(tree.parent(a), Some(root));
    assert_eq!(tree.first_child(root), Some(a));
}

#[test]
fn has_ancestor_walks_to_component_root() {
    let mut tree: Tree<u32> = Tree::new(0);
    let root = tree.root();
    let a = tree.orphan(1);
    let b = tree.orphan(2);
    tree.append_id(root, a);
    tree.append_id(a, b);
    assert!(tree.has_ancestor(b, b));
    assert!(tree.has_ancestor(b, a));
    assert!(tree.has_ancestor(b, root));
    assert!(!tree.has_ancestor(a, b));
    assert!(!tree.has_ancestor(root, a));
}

#[test]
fn handles_compare_by_identity() {
    let mut tree: Tree<u32> = Tree::new(0);
    let a = tree.orphan(5);
    let b = tree.orphan(5);
    assert_ne!(a, b);
    assert_eq!(a, a);
}
