use forest_ds::error::Error;
use forest_ds::error::Role;
use forest_ds::tree::Tree;

#[test]
fn should_update_last_node_make_child() {
    let mut tree = Tree::new();

    let parent = tree.append_child(1);

    let node = tree.create_node(2);

    assert_eq!(Some(parent), tree.first_node_id());
    assert_eq!(Some(parent), tree.last_node_id());

    tree.make_child(&node, &parent).unwrap();

    assert_eq!(Some(parent), tree.first_node_id());
    assert_eq!(Some(parent), tree.last_node_id());
}

#[test]
fn should_update_first_node_make_sibling() {
    let mut tree = Tree::new();

    let sibling = tree.append_child(1);

    let node = tree.create_node(2);

    assert_eq!(Some(sibling), tree.first_node_id());
    assert_eq!(Some(sibling), tree.last_node_id());

    tree.make_prev_siblings(&node, &sibling).unwrap();

    assert_eq!(Some(node), tree.first_node_id());
    assert_eq!(Some(sibling), tree.last_node_id());
}

#[test]
fn should_update_last_node_make_sibling() {
    let mut tree = Tree::new();

    let first = tree.append_child(1);
    let sibling = tree.append_child(2);

    let node = tree.create_node(3);

    assert_eq!(Some(first), tree.last_node_id());

    tree.make_next_siblings(&node, &sibling).unwrap();

    assert_eq!(Some(first), tree.last_node_id());
}

fn preorder(tree: &Tree<i32>) -> Vec<i32> {
    tree.iter().collect().into_iter().copied().collect()
}

#[test]
fn make_child_moves_a_subtree() {
    let mut tree = Tree::new();
    let a = tree.append_sibling(1);
    let b = tree.append_sibling(2);
    let a1 = tree.append_child_to(&a, 11).unwrap();
    tree.append_child_to(&a1, 111).unwrap();
    tree.append_child_to(&b, 21).unwrap();
    assert_eq!(preorder(&tree), vec![1, 11, 111, 2, 21]);

    tree.make_child(&a1, &b).unwrap();

    assert_eq!(preorder(&tree), vec![1, 2, 21, 11, 111]);
    let node = tree.node(tree.index(&a).unwrap()).unwrap();
    assert_eq!(node.first_child(), None);
    assert_eq!(node.last_child(), None);
    let node = tree.node(tree.index(&a1).unwrap()).unwrap();
    assert_eq!(node.parent(), tree.index(&b));
    assert_eq!(node.next_sibling(), None);
    let node = tree.node(tree.index(&b).unwrap()).unwrap();
    assert_eq!(node.last_child(), tree.index(&a1));
}

#[test]
fn make_child_keeps_the_last_root_a_root() {
    let mut tree = Tree::new();
    let root = tree.append_child(0);
    let sub = tree.create_node(1);
    tree.append_child_to(&sub, 2).unwrap();
    assert_eq!(tree.last_node_id(), Some(root));

    tree.make_child(&sub, &root).unwrap();

    assert_eq!(tree.last_node_id(), Some(root));
    assert_eq!(preorder(&tree), vec![0, 1, 2]);

    let second = tree.append_sibling(3);
    let third = tree.append_sibling(4);
    assert_eq!(tree.last_node_id(), Some(third));
    tree.make_child(&third, &root).unwrap();
    assert_eq!(tree.last_node_id(), Some(second));
    assert_eq!(tree.first_node_id(), Some(root));
    assert_eq!(preorder(&tree), vec![0, 1, 2, 4, 3]);
}

#[test]
fn make_next_sibling_of_the_last_root_moves_the_last_root() {
    let mut tree = Tree::new();
    let first = tree.append_sibling(1);
    let second = tree.append_sibling(2);
    let node = tree.create_node(3);

    tree.make_next_siblings(&node, &first).unwrap();
    assert_eq!(tree.last_node_id(), Some(second));
    assert_eq!(preorder(&tree), vec![1, 3, 2]);

    tree.make_next_siblings(&node, &second).unwrap();
    assert_eq!(tree.last_node_id(), Some(node));
    assert_eq!(preorder(&tree), vec![1, 2, 3]);

    tree.make_next_siblings(&second, &node).unwrap();
    assert_eq!(tree.last_node_id(), Some(second));
    assert_eq!(preorder(&tree), vec![1, 3, 2]);
}

#[test]
fn detach_of_the_last_root_moves_the_last_root() {
    let mut tree = Tree::new();
    let first = tree.append_sibling(1);
    let second = tree.append_sibling(2);
    tree.append_child(21);

    tree.detach(&second).unwrap();
    assert_eq!(tree.first_node_id(), Some(first));
    assert_eq!(tree.last_node_id(), Some(first));

    let third = tree.append_sibling(3);
    assert_eq!(tree.last_node_id(), Some(third));
    assert_eq!(preorder(&tree), vec![1, 3]);
    let node = tree.node(tree.index(&third).unwrap()).unwrap();
    assert_eq!(node.prev_sibling(), tree.index(&first));
}

#[test]
fn make_child_reports_each_error() {
    let mut tree = Tree::new();
    let root = tree.append_child(0);
    let gone = tree.append_child(1);
    tree.remove(&gone);

    assert_eq!(
        tree.make_child(&gone, &root),
        Err(Error::Invalid(Role::Child))
    );
    assert_eq!(
        tree.make_child(&root, &gone),
        Err(Error::Invalid(Role::Parent))
    );
    assert_eq!(
        tree.make_child(&gone, &gone),
        Err(Error::Invalid(Role::Child))
    );
    assert_eq!(tree.make_child(&root, &root), Err(Error::SameNode));
    assert_eq!(preorder(&tree), vec![0]);
}

#[test]
fn make_siblings_report_each_error() {
    let mut tree = Tree::new();
    let root = tree.append_child(0);
    let gone = tree.append_child(1);
    let root_idx = tree.index(&root).unwrap();
    let gone_idx = tree.index(&gone).unwrap();
    tree.remove(&gone);

    assert_eq!(
        tree.make_prev_siblings(&gone, &root),
        Err(Error::Invalid(Role::Node))
    );
    assert_eq!(
        tree.make_prev_siblings(&root, &gone),
        Err(Error::Invalid(Role::Sibling))
    );
    assert_eq!(tree.make_prev_siblings(&root, &root), Err(Error::SameNode));
    assert_eq!(
        tree.make_next_siblings(&gone, &root),
        Err(Error::Invalid(Role::Node))
    );
    assert_eq!(
        tree.make_next_siblings(&root, &gone),
        Err(Error::Invalid(Role::Sibling))
    );
    assert_eq!(tree.make_next_siblings(&root, &root), Err(Error::SameNode));
    assert_eq!(
        tree.make_sibling(root_idx, gone_idx),
        Err(Error::Invalid(Role::Node))
    );
    assert_eq!(
        tree.make_sibling(gone_idx, root_idx),
        Err(Error::Invalid(Role::Sibling))
    );
    assert_eq!(tree.make_sibling(root_idx, root_idx), Err(Error::SameNode));
    assert_eq!(preorder(&tree), vec![0]);
}

#[test]
fn make_prev_sibling_in_the_middle() {
    let mut tree = Tree::new();
    let root = tree.append_child(0);
    let a = tree.append_child_to(&root, 1).unwrap();
    let b = tree.append_child_to(&root, 2).unwrap();
    let c = tree.append_child_to(&root, 3).unwrap();

    tree.make_prev_siblings(&c, &b).unwrap();

    assert_eq!(preorder(&tree), vec![0, 1, 3, 2]);
    let node = tree.node(tree.index(&c).unwrap()).unwrap();
    assert_eq!(node.prev_sibling(), tree.index(&a));
    assert_eq!(node.next_sibling(), tree.index(&b));
    assert_eq!(node.parent(), tree.index(&root));
    let node = tree.node(tree.index(&root).unwrap()).unwrap();
    assert_eq!(node.first_child(), tree.index(&a));
    assert_eq!(node.last_child(), tree.index(&b));

    tree.make_prev_siblings(&b, &a).unwrap();
    assert_eq!(preorder(&tree), vec![0, 2, 1, 3]);
    let node = tree.node(tree.index(&root).unwrap()).unwrap();
    assert_eq!(node.first_child(), tree.index(&b));
    assert_eq!(node.last_child(), tree.index(&c));
}

#[test]
fn make_next_sibling_in_the_middle() {
    let mut tree = Tree::new();
    let root = tree.append_child(0);
    let a = tree.append_child_to(&root, 1).unwrap();
    let b = tree.append_child_to(&root, 2).unwrap();
    let c = tree.append_child_to(&root, 3).unwrap();

    tree.make_next_siblings(&c, &a).unwrap();

    assert_eq!(preorder(&tree), vec![0, 1, 3, 2]);
    let node = tree.node(tree.index(&root).unwrap()).unwrap();
    assert_eq!(node.first_child(), tree.index(&a));
    assert_eq!(node.last_child(), tree.index(&b));

    tree.make_sibling(tree.index(&b).unwrap(), tree.index(&a).unwrap())
        .unwrap();
    assert_eq!(preorder(&tree), vec![0, 3, 2, 1]);
    let node = tree.node(tree.index(&root).unwrap()).unwrap();
    assert_eq!(node.first_child(), tree.index(&c));
    assert_eq!(node.last_child(), tree.index(&a));
}

#[test]
fn make_prev_sibling_of_the_first_root_moves_the_head() {
    let mut tree = Tree::new();
    let first = tree.append_sibling(1);
    let second = tree.append_sibling(2);

    tree.make_prev_siblings(&second, &first).unwrap();

    assert_eq!(tree.first_node_id(), Some(second));
    assert_eq!(preorder(&tree), vec![2, 1]);

    tree.make_prev_siblings(&second, &first).unwrap();
    assert_eq!(tree.first_node_id(), Some(second));
    assert_eq!(preorder(&tree), vec![2, 1]);
}

#[test]
fn detach_makes_a_tree_of_its_own() {
    let mut tree = Tree::new();
    let root = tree.append_child(0);
    let a = tree.append_child_to(&root, 1).unwrap();
    let b = tree.append_child_to(&root, 2).unwrap();
    let c = tree.append_child_to(&root, 3).unwrap();
    let b1 = tree.append_child_to(&b, 21).unwrap();

    tree.detach(&b).unwrap();

    assert_eq!(preorder(&tree), vec![0, 1, 3]);
    let node = tree.node(tree.index(&b).unwrap()).unwrap();
    assert_eq!(node.parent(), None);
    assert_eq!(node.prev_sibling(), None);
    assert_eq!(node.next_sibling(), None);
    assert_eq!(node.first_child(), tree.index(&b1));
    let node = tree.node(tree.index(&a).unwrap()).unwrap();
    assert_eq!(node.next_sibling(), tree.index(&c));
    let node = tree.node(tree.index(&c).unwrap()).unwrap();
    assert_eq!(node.prev_sibling(), tree.index(&a));
    let from_b: Vec<i32> = tree.iter_from(&b).collect().into_iter().copied().collect();
    assert_eq!(from_b, vec![2, 21]);

    tree.detach(&b).unwrap();
    assert_eq!(preorder(&tree), vec![0, 1, 3]);
}

#[test]
fn detach_of_the_head_moves_the_head() {
    let mut tree = Tree::new();
    let first = tree.append_sibling(1);
    let second = tree.append_sibling(2);

    tree.detach(&first).unwrap();
    assert_eq!(tree.first_node_id(), Some(second));
    assert_eq!(tree.last_node_id(), Some(second));
    assert_eq!(preorder(&tree), vec![2]);

    tree.detach(&second).unwrap();
    assert_eq!(tree.first_node_id(), None);
    assert_eq!(tree.last_node_id(), None);
    assert_eq!(preorder(&tree), Vec::<i32>::new());
    assert_eq!(tree.get(&first), Some(&1));
    assert_eq!(tree.get(&second), Some(&2));
}

#[test]
fn a_node_below_itself_does_not_hang_the_traversal() {
    let mut tree = Tree::new();
    let root = tree.append_child(0);
    let child = tree.append_child_to(&root, 1).unwrap();
    let leaf = tree.append_child_to(&child, 2).unwrap();

    tree.make_child(&child, &leaf).unwrap();

    let node = tree.node(tree.index(&child).unwrap()).unwrap();
    assert_eq!(node.parent(), tree.index(&leaf));
    let node = tree.node(tree.index(&leaf).unwrap()).unwrap();
    assert_eq!(node.parent(), tree.index(&child));
    assert_eq!(preorder(&tree), vec![0]);
    let cycle = tree.iter_from(&child).collect();
    assert_eq!(cycle.len(), 3);
}

fn assert_links_consistent(tree: &Tree<i32>, ids: &[forest_ds::id::NodeId]) {
    for id in ids {
        let Some(idx) = tree.index(id) else { continue };
        let node = tree.node(idx).unwrap();
        if let Some(next) = node.next_sibling() {
            let other = tree.node(next).unwrap();
            assert_eq!(other.prev_sibling(), Some(idx));
            assert_eq!(other.parent(), node.parent());
        }
        if let Some(prev) = node.prev_sibling() {
            let other = tree.node(prev).unwrap();
            assert_eq!(other.next_sibling(), Some(idx));
            assert_eq!(other.parent(), node.parent());
        }
        match node.first_child() {
            Some(child) => {
                let other = tree.node(child).unwrap();
                assert_eq!(other.prev_sibling(), None);
                assert_eq!(other.parent(), Some(idx));
                assert!(node.last_child().is_some());
            }
            None => assert_eq!(node.last_child(), None),
        }
        if let Some(child) = node.last_child() {
            let other = tree.node(child).unwrap();
            assert_eq!(other.next_sibling(), None);
            assert_eq!(other.parent(), Some(idx));
        }
        if let Some(parent) = node.parent() {
            let other = tree.node(parent).unwrap();
            if node.prev_sibling().is_none() {
                assert_eq!(other.first_child(), Some(idx));
            }
            if node.next_sibling().is_none() {
                assert_eq!(other.last_child(), Some(idx));
            }
        }
    }
    if let Some(first) = tree.first_node_id() {
        let node = tree.node(tree.index(&first).unwrap()).unwrap();
        assert_eq!(node.parent(), None);
        assert_eq!(node.prev_sibling(), None);
        let mut end = tree.index(&first).unwrap();
        while let Some(next) = tree.node(end).unwrap().next_sibling() {
            end = next;
        }
        assert_eq!(tree.index(&tree.last_node_id().unwrap()), Some(end));
    } else {
        assert_eq!(tree.last_node_id(), None);
    }
    if let Some(last) = tree.last_node_id() {
        let node = tree.node(tree.index(&last).unwrap()).unwrap();
        assert_eq!(node.parent(), None);
        assert_eq!(node.next_sibling(), None);
    }
}

#[test]
fn links_stay_consistent_through_edits() {
    let mut tree = Tree::new();
    let mut ids = Vec::new();
    for value in 0..12 {
        let id = match value % 4 {
            0 => tree.append_sibling(value),
            1 => tree.append_child(value),
            2 => tree.create_node(value),
            _ => tree.append_child_to(&ids[value as usize / 2], value).unwrap(),
        };
        ids.push(id);
        assert_links_consistent(&tree, &ids);
    }
    let mut seed: usize = 7;
    for step in 0..400 {
        seed = seed.wrapping_mul(6364136223846793005).wrapping_add(1442695040888963407);
        let a = ids[(seed >> 33) % ids.len()];
        let b = ids[(seed >> 17) % ids.len()];
        match step % 7 {
            0 => {
                let _ = tree.make_child(&a, &b);
            }
            1 => {
                let _ = tree.make_prev_siblings(&a, &b);
            }
            2 => {
                let _ = tree.make_next_siblings(&a, &b);
            }
            3 => {
                let _ = tree.detach(&a);
            }
            4 => {
                let _ = tree.remove(&a);
            }
            5 => {
                if let Ok(id) = tree.insert_sibling_after(&a, step) {
                    ids.push(id);
                }
            }
            _ => {
                if let (Some(a), Some(b)) = (tree.index(&a), tree.index(&b)) {
                    let _ = tree.make_sibling(a, b);
                }
            }
        }
        assert_links_consistent(&tree, &ids);
        assert!(tree.iter().collect().len() <= ids.len());
        let _ = tree.to_nested();
    }
}

#[test]
fn a_created_node_joins_the_traversal_when_it_is_made_a_child() {
    let mut tree = Tree::new();
    let root = tree.append_child(1);
    let node = tree.create_node(2);
    assert_eq!(preorder(&tree), vec![1]);

    tree.make_child(&node, &root).unwrap();
    assert_eq!(preorder(&tree), vec![1, 2]);
    assert_eq!(tree.to_nested().len(), 1);

    let other = tree.create_node(3);
    tree.make_prev_siblings(&other, &root).unwrap();
    assert_eq!(preorder(&tree), vec![3, 1, 2]);
    let last = tree.create_node(4);
    tree.make_next_siblings(&last, &root).unwrap();
    assert_eq!(preorder(&tree), vec![3, 1, 2, 4]);
    assert_eq!(tree.first_node_id(), Some(other));
    assert_eq!(tree.last_node_id(), Some(last));
}
