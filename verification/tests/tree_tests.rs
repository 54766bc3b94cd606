use easy_tree::Tree;

#[test]
fn test_tree() {
    let mut tree = Tree::new();
    let root = tree.add_node(0);
    let child1 = tree.add_child(root, 1);
    let child2 = tree.add_child(root, 2);
    let child3 = tree.add_child(child1, 3);

    assert_eq!(tree.get(root), Some(&0));
    assert_eq!(tree.get(child1), Some(&1));
    assert_eq!(tree.get(child2), Some(&2));
    assert_eq!(tree.get(child3), Some(&3));

    assert_eq!(tree.parent_index_unchecked(child1), Some(root));
    assert_eq!(tree.parent_index_unchecked(child2), Some(root));
    assert_eq!(tree.parent_index_unchecked(child3), Some(child1));

    assert_eq!(tree.children(root), &[child1, child2]);
    assert_eq!(tree.children(child1), &[child3]);
    assert_eq!(tree.children(child2), &[]);
    assert_eq!(tree.children(child3), &[]);
}

#[test]
fn test_tree_iter() {
    let mut tree = Tree::new();
    let root = tree.add_node(0);
    let child1 = tree.add_child(root, 1);
    let child2 = tree.add_child(root, 2);
    let child3 = tree.add_child(child1, 3);

    let mut iter = tree.iter();
    assert_eq!(iter.next(), Some((root, &0)));
    assert_eq!(iter.next(), Some((child1, &1)));
    assert_eq!(iter.next(), Some((child2, &2)));
    assert_eq!(iter.next(), Some((child3, &3)));
    assert_eq!(iter.next(), None);
}

#[test]
fn test_tree_iter_mut() {
    let mut tree = Tree::new();
    let root = tree.add_node(0);
    let child1 = tree.add_child(root, 1);
    let child2 = tree.add_child(root, 2);
    let child3 = tree.add_child(child1, 3);

    let mut iter = tree.iter_mut();
    assert_eq!(iter.next(), Some((root, &mut 0)));
    assert_eq!(iter.next(), Some((child1, &mut 1)));
    assert_eq!(iter.next(), Some((child2, &mut 2)));
    assert_eq!(iter.next(), Some((child3, &mut 3)));
    assert_eq!(iter.next(), None);
}

#[test]
fn indices_count_creations_and_stay_valid() {
    let mut tree = Tree::new();
    assert_eq!(tree.add_node("a"), 0);
    assert_eq!(tree.add_child(0, "b"), 1);
    assert_eq!(tree.add_node("c"), 2);
    assert_eq!(tree.add_child(1, "d"), 3);

    assert_eq!(tree.get(0), Some(&"a"));
    assert_eq!(tree.get(1), Some(&"b"));
    assert_eq!(tree.get(2), Some(&"c"));
    assert_eq!(tree.get(3), Some(&"d"));
    assert_eq!(tree.len(), 4);
}

#[test]
fn parent_and_child_lists_mirror_each_other() {
    let mut tree = Tree::new();
    let root = tree.add_node(10);
    let a = tree.add_child(root, 11);
    let b = tree.add_child(root, 12);
    let c = tree.add_child(root, 13);

    assert_eq!(tree.children(root), &[a, b, c]);
    assert_eq!(tree.parent_index_unchecked(a), Some(root));
    assert_eq!(tree.parent_index_unchecked(b), Some(root));
    assert_eq!(tree.parent_index_unchecked(c), Some(root));
    assert_eq!(tree.parent_index_unchecked(root), None);
}

#[test]
fn add_child_to_root_attaches_to_index_zero() {
    let mut tree = Tree::new();
    let root = tree.add_node("root");
    let child = tree.add_child_to_root("child");
    assert_eq!(child, 1);
    assert_eq!(tree.parent_index_unchecked(child), Some(root));
    assert_eq!(tree.children(root), &[child]);
}

#[test]
fn checked_access_rejects_out_of_range_indices() {
    let mut tree = Tree::new();
    assert_eq!(tree.get(0), None);
    assert_eq!(tree.get_mut(0), None);
    let root = tree.add_node(7);
    assert_eq!(tree.get(root), Some(&7));
    assert_eq!(tree.get_mut(root), Some(&mut 7));
    assert_eq!(tree.get(1), None);
    assert_eq!(tree.get_mut(1), None);
    assert_eq!(tree.get(usize::MAX), None);
}

#[test]
fn unchecked_access_reads_the_stored_payload() {
    let mut tree = Tree::new();
    let root = tree.add_node(5);
    let child = tree.add_child(root, 6);
    assert_eq!(tree.get_unchecked(root), &5);
    assert_eq!(tree.get_unchecked(child), &6);
}

#[test]
fn writes_are_seen_by_later_reads() {
    let mut tree = Tree::new();
    let root = tree.add_node(1);
    let child = tree.add_child(root, 2);

    *tree.get_mut(root).unwrap() = 100;
    assert_eq!(tree.get(root), Some(&100));
    assert_eq!(tree.get_unchecked(root), &100);

    *tree.get_unchecked_mut(child) = 200;
    assert_eq!(tree.get(child), Some(&200));
    assert_eq!(tree.get_unchecked(child), &200);

    let mut iter = tree.iter_mut();
    while let Some((index, data)) = iter.next() {
        *data += index;
    }
    assert_eq!(tree.get(root), Some(&100));
    assert_eq!(tree.get(child), Some(&201));
}

#[test]
fn clear_resets_the_tree() {
    let mut tree = Tree::new();
    tree.add_node(1);
    tree.add_child(0, 2);
    assert_eq!(tree.len(), 2);
    assert!(!tree.is_empty());

    tree.clear();
    assert_eq!(tree.len(), 0);
    assert!(tree.is_empty());
    assert_eq!(tree.get(0), None);

    assert_eq!(tree.add_node(9), 0);
    assert_eq!(tree.get(0), Some(&9));
    assert_eq!(tree.len(), 1);
}

#[test]
fn a_default_tree_is_empty() {
    let tree: Tree<i32> = Tree::default();
    assert!(tree.is_empty());
    assert_eq!(tree.len(), 0);
}

#[test]
fn iteration_follows_creation_order_not_structure() {
    let mut tree = Tree::new();
    let root = tree.add_node("r");
    let a = tree.add_child(root, "a");
    let b = tree.add_child(a, "b");
    let c = tree.add_child(root, "c");
    let lone = tree.add_node("lone");

    let mut iter = tree.iter();
    let mut seen = Vec::new();
    while let Some((index, data)) = iter.next() {
        seen.push((index, *data));
    }
    assert_eq!(seen, vec![(root, "r"), (a, "a"), (b, "b"), (c, "c"), (lone, "lone")]);
}

#[test]
fn an_empty_iterator_yields_nothing() {
    let tree: Tree<u8> = Tree::new();
    let mut iter = tree.iter();
    assert_eq!(iter.next(), None);
    assert_eq!(iter.next(), None);
}
