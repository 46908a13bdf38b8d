use forest_ds::error::Error;
use forest_ds::error::Role;
use forest_ds::id::NodeId;
use forest_ds::index::NodeIdx;
use forest_ds::tree::Tree;

fn idx<T>(tree: &Tree<T>, id: &NodeId) -> Option<NodeIdx> {
    tree.index(id)
}

fn links<T>(tree: &Tree<T>, id: &NodeId) -> [Option<NodeIdx>; 5] {
    let node = tree.node(tree.index(id).unwrap()).unwrap();
    [
        node.parent(),
        node.prev_sibling(),
        node.next_sibling(),
        node.first_child(),
        node.last_child(),
    ]
}

fn values(tree: &Tree<i32>) -> Vec<i32> {
    tree.iter().collect().into_iter().copied().collect()
}

#[test]
fn two_appended_children_form_a_chain() {
    let mut tree = Tree::new();
    let first = tree.append_child(1);
    let second = tree.append_child(2);

    assert_eq!(values(&tree), vec![1, 2]);
    assert_eq!(
        links(&tree, &first),
        [None, None, None, idx(&tree, &second), idx(&tree, &second)]
    );
    assert_eq!(
        links(&tree, &second),
        [idx(&tree, &first), None, None, None, None]
    );
    assert_eq!(tree.first_node_id(), Some(first));
    assert_eq!(tree.last_node_id(), Some(first));
}

#[test]
fn two_appended_siblings_are_roots() {
    let mut tree = Tree::new();
    let first = tree.append_sibling(1);
    let second = tree.append_sibling(2);

    assert_eq!(values(&tree), vec![1, 2]);
    assert_eq!(
        links(&tree, &first),
        [None, None, idx(&tree, &second), None, None]
    );
    assert_eq!(
        links(&tree, &second),
        [None, idx(&tree, &first), None, None, None]
    );
    assert_eq!(tree.first_node_id(), Some(first));
    assert_eq!(tree.last_node_id(), Some(second));
}

#[test]
fn make_child_of_itself_is_refused_and_changes_nothing() {
    let mut tree = Tree::new();
    let root = tree.append_child(0);
    let a = tree.append_child_to(&root, 1).unwrap();
    let b = tree.append_child_to(&root, 2).unwrap();
    let before = [links(&tree, &root), links(&tree, &a), links(&tree, &b)];
    let ends = (tree.first_node_id(), tree.last_node_id());

    assert_eq!(tree.make_child(&a, &a), Err(Error::SameNode));

    assert_eq!(
        [links(&tree, &root), links(&tree, &a), links(&tree, &b)],
        before
    );
    assert_eq!((tree.first_node_id(), tree.last_node_id()), ends);
    assert_eq!(values(&tree), vec![0, 1, 2]);
}

#[test]
fn child_and_sibling_link_to_the_root() {
    let mut tree = Tree::new();
    let root = tree.append_child(0);
    let one = tree.append_child_to(&root, 1).unwrap();
    let two = tree.insert_sibling_after(&one, 2).unwrap();

    let root_links = links(&tree, &root);
    assert_eq!(root_links[3], idx(&tree, &one));
    assert_eq!(root_links[4], idx(&tree, &two));
    assert_eq!(links(&tree, &one)[2], idx(&tree, &two));
    assert_eq!(links(&tree, &two)[1], idx(&tree, &one));
    assert_eq!(links(&tree, &one)[0], idx(&tree, &root));
    assert_eq!(links(&tree, &two)[0], idx(&tree, &root));
    assert_eq!(idx(&tree, &root).unwrap().index(), 0);
    assert_eq!(idx(&tree, &one).unwrap().index(), 1);
    assert_eq!(idx(&tree, &two).unwrap().index(), 2);
}

#[test]
fn removing_a_middle_sibling_bridges_the_gap() {
    let mut tree = Tree::new();
    let root = tree.append_child(0);
    let a = tree.append_child_to(&root, 1).unwrap();
    let b = tree.append_child_to(&root, 2).unwrap();
    let c = tree.append_child_to(&root, 3).unwrap();

    assert_eq!(tree.remove(&b), Some(2));

    assert_eq!(links(&tree, &a)[2], idx(&tree, &c));
    assert_eq!(links(&tree, &c)[1], idx(&tree, &a));
    assert_eq!(links(&tree, &root)[3], idx(&tree, &a));
    assert_eq!(links(&tree, &root)[4], idx(&tree, &c));
    assert_eq!(tree.get(&b), None);
    assert_eq!(values(&tree), vec![0, 1, 3]);
}

#[test]
fn removing_an_end_sibling_moves_the_end_of_the_parent() {
    let mut tree = Tree::new();
    let root = tree.append_child(0);
    let a = tree.append_child_to(&root, 1).unwrap();
    let b = tree.append_child_to(&root, 2).unwrap();
    let c = tree.append_child_to(&root, 3).unwrap();

    assert_eq!(tree.remove(&a), Some(1));
    assert_eq!(links(&tree, &root)[3], idx(&tree, &b));
    assert_eq!(links(&tree, &b)[1], None);

    assert_eq!(tree.remove(&c), Some(3));
    assert_eq!(links(&tree, &root)[4], idx(&tree, &b));
    assert_eq!(links(&tree, &b)[2], None);

    assert_eq!(tree.remove(&b), Some(2));
    assert_eq!(links(&tree, &root), [None, None, None, None, None]);
    assert_eq!(values(&tree), vec![0]);
}

#[test]
fn remove_refuses_a_node_with_children() {
    let mut tree = Tree::new();
    let root = tree.append_child(0);
    let child = tree.append_child_to(&root, 1).unwrap();

    assert_eq!(tree.remove(&root), None);
    assert_eq!(values(&tree), vec![0, 1]);
    assert_eq!(tree.remove(&child), Some(1));
    assert_eq!(tree.remove(&root), Some(0));
    assert_eq!(values(&tree), Vec::<i32>::new());
    assert_eq!(tree.first_node_id(), None);
    assert_eq!(tree.last_node_id(), None);
}

#[test]
fn remove_moves_the_last_root_back() {
    let mut tree = Tree::new();
    let root = tree.append_child(0);
    let a = tree.append_child(1);
    let b = tree.append_sibling(2);
    assert_eq!(tree.last_node_id(), Some(b));
    assert_eq!(links(&tree, &b), [None, idx(&tree, &root), None, None, None]);

    assert_eq!(tree.remove(&b), Some(2));
    assert_eq!(tree.last_node_id(), Some(root));
    assert_eq!(tree.remove(&a), Some(1));
    assert_eq!(tree.last_node_id(), Some(root));
    assert_eq!(tree.append_child(5), a);
    assert_eq!(links(&tree, &a)[0], idx(&tree, &root));
    assert_eq!(values(&tree), vec![0, 5]);
}

#[test]
fn remove_of_the_first_root_moves_the_head() {
    let mut tree = Tree::new();
    let first = tree.append_sibling(1);
    let second = tree.append_sibling(2);
    let third = tree.append_sibling(3);

    assert_eq!(tree.remove(&first), Some(1));
    assert_eq!(tree.first_node_id(), Some(second));
    assert_eq!(tree.last_node_id(), Some(third));
    assert_eq!(links(&tree, &second)[1], None);
    assert_eq!(values(&tree), vec![2, 3]);
}

#[test]
fn a_removed_slot_is_reused_by_the_next_node() {
    let mut tree = Tree::new();
    let root = tree.append_child(0);
    let a = tree.append_child_to(&root, 1).unwrap();
    let b = tree.append_child_to(&root, 2).unwrap();
    let slot_a = idx(&tree, &a).unwrap().index();
    let slot_b = idx(&tree, &b).unwrap().index();

    assert_eq!(tree.remove(&a), Some(1));
    assert_eq!(tree.remove(&b), Some(2));

    let c = tree.create_node(3);
    assert_eq!(idx(&tree, &c).unwrap().index(), slot_b);
    let d = tree.create_node(4);
    assert_eq!(idx(&tree, &d).unwrap().index(), slot_a);
    let e = tree.create_node(5);
    assert_eq!(idx(&tree, &e).unwrap().index(), 3);
}

#[test]
fn a_stale_handle_names_the_node_that_took_the_slot() {
    let mut tree = Tree::new();
    let root = tree.append_child(0);
    let old = tree.append_child_to(&root, 1).unwrap();
    assert_eq!(tree.remove(&old), Some(1));
    assert_eq!(tree.get(&old), None);
    assert_eq!(tree.detach(&old), Err(Error::Invalid(Role::Node)));

    let new = tree.append_child_to(&root, 7).unwrap();
    assert_eq!(new, old);
    assert_eq!(tree.get(&old), Some(&7));
}

#[test]
fn created_node_is_unrelated() {
    let mut tree = Tree::new();
    let root = tree.append_child(0);
    let lone = tree.create_node(9);

    assert_eq!(links(&tree, &lone), [None, None, None, None, None]);
    assert_eq!(tree.first_node_id(), Some(root));
    assert_eq!(tree.last_node_id(), Some(root));
    assert_eq!(values(&tree), vec![0]);
    assert_eq!(tree.get(&lone), Some(&9));
}

#[test]
fn get_mut_changes_one_value() {
    let mut tree = Tree::new();
    let a = tree.append_sibling(1);
    let b = tree.append_sibling(2);
    *tree.get_mut(&a).unwrap() = 10;
    assert_eq!(tree.get(&a), Some(&10));
    assert_eq!(tree.get(&b), Some(&2));
    assert_eq!(tree.remove(&b), Some(2));
    assert!(tree.get_mut(&b).is_none());
}

#[test]
fn node_gives_value_and_links() {
    let mut tree = Tree::new();
    let root = tree.append_child(String::from("root"));
    let child = tree.append_child(String::from("child"));
    let root_idx = tree.index(&root).unwrap();
    let child_idx = tree.index(&child).unwrap();

    let node = tree.node(child_idx).unwrap();
    assert_eq!(node.parent(), Some(root_idx));
    let value: &String = node.as_ref();
    assert_eq!(value, "child");
    assert_eq!(node.len(), 5);

    let node = tree.node_mut(root_idx).unwrap();
    node.push('!');
    let value: &mut String = node.as_mut();
    value.push('?');
    assert_eq!(tree.get(&root), Some(&String::from("root!?")));
    assert_eq!(tree.node(root_idx).unwrap().first_child(), Some(child_idx));

    assert_eq!(tree.remove(&child), Some(String::from("child")));
    assert!(tree.node(child_idx).is_none());
    assert!(tree.node_mut(child_idx).is_none());
    assert_eq!(tree.index(&child), None);
}

#[test]
fn append_to_a_missing_node_fails() {
    let mut tree = Tree::new();
    let root = tree.append_child(0);
    let gone = tree.append_child(1);
    assert_eq!(tree.remove(&gone), Some(1));

    assert_eq!(
        tree.append_child_to(&gone, 2),
        Err(Error::Invalid(Role::Parent))
    );
    assert_eq!(
        tree.insert_sibling_after(&gone, 2),
        Err(Error::Invalid(Role::Sibling))
    );
    assert_eq!(values(&tree), vec![0]);
    assert_eq!(links(&tree, &root), [None, None, None, None, None]);
}

#[test]
fn only_a_root_after_the_last_root_moves_the_last_root() {
    let mut tree = Tree::new();
    let root = tree.append_child(0);
    let a = tree.append_child_to(&root, 1).unwrap();
    assert_eq!(tree.last_node_id(), Some(root));
    let b = tree.append_child_to(&root, 2).unwrap();
    assert_eq!(tree.last_node_id(), Some(root));
    let c = tree.insert_sibling_after(&a, 3).unwrap();
    assert_eq!(tree.last_node_id(), Some(root));
    assert_eq!(links(&tree, &a)[2], idx(&tree, &c));
    assert_eq!(links(&tree, &c)[2], idx(&tree, &b));
    assert_eq!(links(&tree, &b)[1], idx(&tree, &c));
    assert_eq!(values(&tree), vec![0, 1, 3, 2]);

    let second = tree.insert_sibling_after(&root, 4).unwrap();
    assert_eq!(tree.last_node_id(), Some(second));
    let between = tree.insert_sibling_after(&root, 5).unwrap();
    assert_eq!(tree.last_node_id(), Some(second));
    assert_eq!(tree.first_node_id(), Some(root));
    assert_eq!(values(&tree), vec![0, 1, 3, 2, 5, 4]);
    assert_eq!(links(&tree, &between)[2], idx(&tree, &second));
    let child = tree.append_child(6);
    assert_eq!(links(&tree, &child)[0], idx(&tree, &second));
}

#[test]
fn with_capacity_and_default_are_empty() {
    let tree: Tree<u8> = Tree::with_capacity(8);
    assert_eq!(tree.first_node_id(), None);
    assert_eq!(tree.last_node_id(), None);
    assert!(tree.iter().collect().is_empty());
    let tree: Tree<u8> = Tree::default();
    assert_eq!(tree.first_node_id(), None);
    assert!(tree.iter().collect().is_empty());
}

#[test]
fn error_messages() {
    assert_eq!(
        Error::Invalid(Role::Child).message(),
        "couldn't get the node from the index for child"
    );
    assert_eq!(
        Error::Invalid(Role::Parent).message(),
        "couldn't get the node from the index for parent"
    );
    assert_eq!(
        Error::Invalid(Role::Node).message(),
        "couldn't get the node from the index for node"
    );
    assert_eq!(
        Error::Invalid(Role::Sibling).message(),
        "couldn't get the node from the index for sibling"
    );
    assert_eq!(Error::SameNode.message(), "couldn't relate a node to itself");
}
