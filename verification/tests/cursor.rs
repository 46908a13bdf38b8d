use forest_ds::tree::Tree;

#[test]
fn should_move_next() {
    let mut tree: Tree<i32> = Tree::new();
    // A
    tree.append_child(0);

    // A -> B
    let b = tree.append_child(1);

    // A -> B
    //   -> C
    tree.append_child(2);

    // A -> B
    //   -> D
    //   -> C
    tree.insert_sibling_after(&b, 3).unwrap();

    let mut cursor = tree.cursor_first().unwrap();

    assert_eq!(0, *cursor.get());

    cursor.move_next().unwrap();
    assert_eq!(1, *cursor.get());

    cursor.move_next().unwrap();
    assert_eq!(3, *cursor.get());

    cursor.move_next().unwrap();
    assert_eq!(2, *cursor.get());

    assert!(cursor.move_next().is_err());
}

#[test]
fn cursor_moves_along_every_link() {
    let mut tree: Tree<i32> = Tree::new();
    let root = tree.append_child(0);
    let a = tree.append_child_to(&root, 1).unwrap();
    let b = tree.append_child_to(&root, 2).unwrap();

    let mut cursor = tree.cursor(&root).unwrap();
    assert_eq!(cursor.id(), root);
    assert!(cursor.parent().is_err());
    assert!(cursor.next_sibling().is_err());
    assert!(cursor.prev_sibling().is_err());
    assert_eq!(cursor.id(), root);

    assert_eq!(cursor.first_child().unwrap().id(), a);
    assert!(cursor.first_child().is_err());
    assert!(cursor.last_child().is_err());
    assert!(cursor.prev_sibling().is_err());
    assert_eq!(cursor.next_sibling().unwrap().id(), b);
    assert!(cursor.next_sibling().is_err());
    assert_eq!(cursor.prev_sibling().unwrap().id(), a);
    assert_eq!(cursor.parent().unwrap().id(), root);
    assert_eq!(cursor.last_child().unwrap().id(), b);
    assert_eq!(*cursor.get(), 2);
}

#[test]
fn cursor_chains_moves_with_fallback() {
    let mut tree: Tree<i32> = Tree::new();
    let root = tree.append_child(0);
    let a = tree.append_child_to(&root, 1).unwrap();

    let mut cursor = tree.cursor(&a).unwrap();
    let moved = match cursor.first_child() {
        Ok(cursor) => Ok(cursor),
        Err(cursor) => cursor.parent(),
    };
    assert_eq!(moved.unwrap().id(), root);
}

#[test]
fn cursor_edits_in_place() {
    let mut tree: Tree<i32> = Tree::new();
    let root = tree.append_child(0);

    let mut cursor = tree.cursor_last().unwrap();
    *cursor.get_mut() = 5;
    let child = cursor.append_child(1);
    let second = cursor.append_child(3);
    assert_eq!(cursor.id(), root);
    cursor.first_child().unwrap();
    let between = cursor.append_sibling(2);
    assert_eq!(cursor.id(), child);
    assert_eq!(cursor.next_sibling().unwrap().id(), between);
    assert_eq!(cursor.next_sibling().unwrap().id(), second);

    let all: Vec<i32> = tree.iter().collect().into_iter().copied().collect();
    assert_eq!(all, vec![5, 1, 2, 3]);
    assert_eq!(tree.last_node_id(), Some(root));
}

#[test]
fn cursor_needs_a_node() {
    let mut tree: Tree<i32> = Tree::new();
    assert!(tree.cursor_first().is_none());
    assert!(tree.cursor_last().is_none());
    let root = tree.append_child(0);
    let child = tree.append_child(1);
    assert_eq!(tree.remove(&child), Some(1));
    assert!(tree.cursor(&child).is_none());
    assert_eq!(tree.cursor(&root).unwrap().id(), root);
    assert_eq!(tree.cursor_first().unwrap().id(), root);
    assert_eq!(tree.cursor_last().unwrap().id(), root);
}

#[test]
fn cursor_ascends_to_the_next_sibling_of_an_ancestor() {
    let mut tree: Tree<i32> = Tree::new();
    let first = tree.append_sibling(1);
    let second = tree.append_sibling(2);
    let a = tree.append_child_to(&first, 11).unwrap();
    let deep = tree.append_child_to(&a, 111).unwrap();

    let mut cursor = tree.cursor(&deep).unwrap();
    assert_eq!(cursor.move_next().unwrap().id(), second);
    assert!(cursor.move_next().is_err());
    assert_eq!(cursor.id(), second);
}
