use forest_ds::nested::Nested;
use forest_ds::tree::Tree;

fn count<T>(items: &[Nested<T>]) -> usize {
    items.iter().map(|item| 1 + count(&item.children)).sum()
}

fn leaf(value: &i32) -> Nested<&i32> {
    Nested { value, children: Vec::new() }
}

#[test]
fn nested_form_of_an_empty_tree_is_empty() {
    let tree: Tree<i32> = Tree::new();
    assert_eq!(tree.to_nested(), Vec::new());
}

#[test]
fn nested_form_lists_roots_and_children_in_order() {
    let mut tree = Tree::new();
    let root = tree.append_child(1);
    let first = tree.append_child_to(&root, 2).unwrap();
    let second = tree.insert_sibling_after(&first, 3).unwrap();
    tree.append_child_to(&first, 1).unwrap();
    tree.append_child_to(&first, 2).unwrap();
    tree.append_child_to(&second, 1).unwrap();
    let other = tree.insert_sibling_after(&root, 7).unwrap();
    tree.append_child_to(&other, 8).unwrap();

    let nested = tree.to_nested();

    let expected = vec![
        Nested {
            value: &1,
            children: vec![
                Nested { value: &2, children: vec![leaf(&1), leaf(&2)] },
                Nested { value: &3, children: vec![leaf(&1)] },
            ],
        },
        Nested { value: &7, children: vec![leaf(&8)] },
    ];
    assert_eq!(nested, expected);
}

#[test]
fn nested_form_counts_the_live_nodes() {
    let mut tree = Tree::new();
    let mut ids = vec![tree.append_child(0)];
    for value in 1..30 {
        let anchor = ids[(value as usize * 7) % ids.len()];
        let id = if value % 2 == 0 {
            tree.append_child_to(&anchor, value).unwrap()
        } else {
            tree.insert_sibling_after(&anchor, value).unwrap()
        };
        ids.push(id);
    }
    let mut live = 30;
    for id in ids.iter().rev() {
        if live > 12 && tree.remove(id).is_some() {
            live -= 1;
        }
    }

    let nested = tree.to_nested();

    assert_eq!(count(&nested), live);
    assert_eq!(tree.iter().collect().len(), live);
}

#[test]
fn nested_form_leaves_out_detached_nodes() {
    let mut tree = Tree::new();
    let root = tree.append_child(1);
    let child = tree.append_child_to(&root, 2).unwrap();
    tree.create_node(9);
    tree.detach(&child).unwrap();

    assert_eq!(tree.to_nested(), vec![leaf(&1)]);
}

#[test]
fn nested_form_holds_what_hangs_off_the_root_list() {
    let mut tree = Tree::new();
    let root = tree.append_sibling(0);
    let top = tree.append_sibling(1);
    let below = tree.append_child_to(&top, 2).unwrap();
    assert_eq!(count(&tree.to_nested()), 3);

    tree.make_child(&root, &below).unwrap();
    let expected = vec![Nested {
        value: &1,
        children: vec![Nested { value: &2, children: vec![leaf(&0)] }],
    }];
    assert_eq!(tree.to_nested(), expected);

    tree.make_child(&top, &root).unwrap();
    assert_eq!(tree.first_node_id(), None);
    assert_eq!(tree.to_nested(), Vec::new());
    assert_eq!(tree.get(&top), Some(&1));
}

fn flatten<'a>(items: &[Nested<&'a i32>], out: &mut Vec<i32>) {
    for item in items {
        out.push(*item.value);
        flatten(&item.children, out);
    }
}

#[test]
fn nested_form_reads_depth_first_as_the_traversal() {
    let mut tree = Tree::new();
    let mut ids = vec![tree.append_sibling(0)];
    for value in 1..25 {
        let anchor = ids[(value as usize * 5) % ids.len()];
        let id = match value % 3 {
            0 => tree.append_sibling(value),
            1 => tree.append_child_to(&anchor, value).unwrap(),
            _ => tree.insert_sibling_after(&anchor, value).unwrap(),
        };
        ids.push(id);
    }
    let mut read = Vec::new();
    flatten(&tree.to_nested(), &mut read);
    let walked: Vec<i32> = tree.iter().collect().into_iter().copied().collect();
    assert_eq!(read, walked);
    assert_eq!(read.len(), 25);
}
