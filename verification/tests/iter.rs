use forest_ds::tree::Tree;

#[test]
fn should_return_none_on_empty() {
    let tree = Tree::<i32>::new();

    assert_eq!(None, tree.iter().next());
}

#[test]
fn should_iter_children() {
    let mut tree = Tree::<i32>::new();

    tree.append_child(1);
    tree.append_child(2);

    let mut iter = tree.iter();

    assert_eq!(1, *iter.next().unwrap());
    assert_eq!(2, *iter.next().unwrap());
}

#[test]
fn should_iter_siblings() {
    let mut tree = Tree::<i32>::new();

    tree.append_sibling(1);
    tree.append_sibling(2);

    let mut iter = tree.iter();

    assert_eq!(1, *iter.next().unwrap());
    assert_eq!(2, *iter.next().unwrap());
}

#[test]
fn mut_should_return_none_on_empty() {
    let mut tree = Tree::<i32>::new();

    assert_eq!(None, tree.iter_mut().next());
}

#[test]
fn mut_should_iter_children() {
    let mut tree = Tree::<i32>::new();

    tree.append_child(1);
    tree.append_child(2);

    let mut iter = tree.iter_mut();

    assert_eq!(1, *iter.next().unwrap());
    assert_eq!(2, *iter.next().unwrap());
}

#[test]
fn mut_should_iter_siblings() {
    let mut tree = Tree::<i32>::new();

    tree.append_sibling(1);
    tree.append_sibling(2);

    let mut iter = tree.iter_mut();

    assert_eq!(1, *iter.next().unwrap());
    assert_eq!(2, *iter.next().unwrap());
}

#[test]
fn into_should_return_none_on_empty() {
    let tree = Tree::<i32>::new();

    assert_eq!(None, tree.into_iterator().next());
}

#[test]
fn into_should_iter_children() {
    let mut tree = Tree::<i32>::new();

    tree.append_child(1);
    tree.append_child(2);

    let mut iter = tree.into_iterator();

    assert_eq!(1, iter.next().unwrap());
    assert_eq!(2, iter.next().unwrap());
}

#[test]
fn into_should_iter_siblings() {
    let mut tree = Tree::<i32>::new();

    tree.append_sibling(1);
    tree.append_sibling(2);

    let mut iter = tree.into_iterator();

    assert_eq!(1, iter.next().unwrap());
    assert_eq!(2, iter.next().unwrap());
}

fn sample() -> Tree<i32> {
    // 1            5
    // +- 2         +- 6
    // |  +- 3
    // +- 4
    let mut tree = Tree::new();
    let one = tree.append_sibling(1);
    let five = tree.append_sibling(5);
    let two = tree.append_child_to(&one, 2).unwrap();
    tree.append_child_to(&one, 4).unwrap();
    tree.append_child_to(&two, 3).unwrap();
    tree.append_child_to(&five, 6).unwrap();
    tree
}

#[test]
fn iter_visits_every_node_once_in_preorder() {
    let tree = sample();
    let mut iter = tree.iter();
    let mut seen = Vec::new();
    while let Some(value) = iter.next() {
        seen.push(*value);
    }
    assert_eq!(seen, vec![1, 2, 3, 4, 5, 6]);
    assert_eq!(iter.next(), None);

    let collected: Vec<i32> = tree.iter().collect().into_iter().copied().collect();
    assert_eq!(collected, seen);
}

#[test]
fn iter_mut_changes_every_value() {
    let mut tree = sample();
    let mut iter = tree.iter_mut();
    while let Some(value) = iter.next() {
        *value *= 10;
    }
    let collected: Vec<i32> = tree.iter().collect().into_iter().copied().collect();
    assert_eq!(collected, vec![10, 20, 30, 40, 50, 60]);
}

#[test]
fn into_iterator_gives_every_value() {
    let tree = sample();
    let mut iter = tree.into_iterator();
    let mut seen = Vec::new();
    while let Some(value) = iter.next() {
        seen.push(value);
    }
    assert_eq!(seen, vec![1, 2, 3, 4, 5, 6]);
    assert_eq!(iter.next(), None);
}

#[test]
fn into_iterator_skips_free_slots() {
    let mut tree = Tree::new();
    let a = tree.append_sibling(String::from("a"));
    let b = tree.append_sibling(String::from("b"));
    tree.append_sibling(String::from("c"));
    assert_eq!(tree.remove(&b), Some(String::from("b")));
    assert_eq!(tree.get(&a), Some(&String::from("a")));

    let mut iter = tree.into_iterator();
    assert_eq!(iter.next(), Some(String::from("a")));
    assert_eq!(iter.next(), Some(String::from("c")));
    assert_eq!(iter.next(), None);
}

#[test]
fn iter_from_starts_at_a_node() {
    let mut tree = Tree::new();
    let one = tree.append_sibling(1);
    tree.append_sibling(5);
    let two = tree.append_child_to(&one, 2).unwrap();
    tree.append_child_to(&two, 3).unwrap();
    let four = tree.append_child_to(&one, 4).unwrap();

    let from_two: Vec<i32> = tree.iter_from(&two).collect().into_iter().copied().collect();
    assert_eq!(from_two, vec![2, 3, 4, 5]);
    assert_eq!(tree.remove(&four), Some(4));
    assert_eq!(tree.iter_from(&four).next(), None);
}

#[test]
fn traversal_counts_the_nodes_after_edits() {
    let mut tree = Tree::new();
    let mut ids = Vec::new();
    let root = tree.append_child(0);
    for value in 1..20 {
        let parent = if value % 3 == 0 { root } else { *ids.last().unwrap_or(&root) };
        ids.push(tree.append_child_to(&parent, value).unwrap());
    }
    let mut live = 20;
    for id in ids.iter().rev().step_by(2) {
        if tree.remove(id).is_some() {
            live -= 1;
        }
    }
    let collected = tree.iter().collect();
    assert_eq!(collected.len(), live);
    let mut sorted: Vec<i32> = collected.into_iter().copied().collect();
    sorted.sort();
    sorted.dedup();
    assert_eq!(sorted.len(), live);
}

#[test]
fn a_sibling_follows_directly_after_the_nodes_below_its_neighbour() {
    let mut tree = Tree::new();
    let root = tree.append_child(0);
    let a = tree.append_child_to(&root, 1).unwrap();
    let a1 = tree.append_child_to(&a, 11).unwrap();
    tree.append_child_to(&a1, 111).unwrap();
    tree.append_child_to(&a, 12).unwrap();
    let b = tree.insert_sibling_after(&a, 2).unwrap();
    tree.append_child_to(&b, 21).unwrap();
    let second = tree.append_sibling(5);
    tree.append_child_to(&second, 51).unwrap();

    let walked: Vec<i32> = tree.iter().collect().into_iter().copied().collect();
    assert_eq!(walked, vec![0, 1, 11, 111, 12, 2, 21, 5, 51]);
    let from_a: Vec<i32> = tree.iter_from(&a).collect().into_iter().copied().collect();
    assert_eq!(from_a, vec![1, 11, 111, 12, 2, 21, 5, 51]);
}
