use easy_tree::Tree;

#[test]
fn test_tree_traverse() {
    let mut tree = Tree::new();
    let root = tree.add_node(0); // Root node with data 0
    let child1 = tree.add_child(root, 1); // Child node with data 1
    let _child2 = tree.add_child(root, 2); // Child node with data 2
    let _child3 = tree.add_child(child1, 3); // Child node with data 3

    let result = tree.traverse(
        |index: usize, node: &i32, mut result: Vec<String>| {
            result.push(format!("Calling handler for node {}: {}", index, node));
            result
        },
        |index: usize, _node: &i32, mut result: Vec<String>| {
            result.push(format!(
                "Finished handling node {} and all it's children",
                index
            ));
            result
        },
        vec![],
    );

    assert_eq!(
        result,
        vec![
            "Calling handler for node 0: 0",
            "Calling handler for node 1: 1",
            "Calling handler for node 3: 3",
            "Finished handling node 3 and all it's children",
            "Finished handling node 1 and all it's children",
            "Calling handler for node 2: 2",
            "Finished handling node 2 and all it's children",
            "Finished handling node 0 and all it's children",
        ]
    );
}

#[test]
fn traversal_order_is_depth_first_with_brackets() {
    let mut tree = Tree::new();
    let root = tree.add_node(0);
    let child1 = tree.add_child(root, 1);
    let child2 = tree.add_child(root, 2);
    let child3 = tree.add_child(child1, 3);

    let order = tree.traversal_order();
    assert_eq!(
        order,
        vec![
            (root, false),
            (child1, false),
            (child3, false),
            (child3, true),
            (child1, true),
            (child2, false),
            (child2, true),
            (root, true),
        ]
    );
}

#[test]
fn traverse_on_an_empty_tree_calls_nothing() {
    let tree: Tree<i32> = Tree::new();
    let result = tree.traverse(
        |index: usize, _node: &i32, mut log: Vec<usize>| {
            log.push(index);
            log
        },
        |index: usize, _node: &i32, mut log: Vec<usize>| {
            log.push(index);
            log
        },
        Vec::new(),
    );
    assert!(result.is_empty());
    assert!(tree.traversal_order().is_empty());
}

#[test]
fn traverse_visits_a_lone_root_once_each_way() {
    let mut tree = Tree::new();
    let root = tree.add_node("only");
    let result = tree.traverse(
        |index: usize, data: &&str, mut log: Vec<String>| {
            log.push(format!("enter {} {}", index, data));
            log
        },
        |index: usize, data: &&str, mut log: Vec<String>| {
            log.push(format!("leave {} {}", index, data));
            log
        },
        Vec::new(),
    );
    assert_eq!(result, vec!["enter 0 only", "leave 0 only"]);
    assert_eq!(tree.traversal_order(), vec![(root, false), (root, true)]);
}

#[test]
fn siblings_are_finished_in_order() {
    // Three children under the root, each with one child of its own: every
    // subtree must be closed before the next sibling is entered.
    let mut tree = Tree::new();
    let root = tree.add_node(0);
    let a = tree.add_child(root, 1);
    let b = tree.add_child(root, 2);
    let c = tree.add_child(root, 3);
    let a1 = tree.add_child(a, 4);
    let b1 = tree.add_child(b, 5);
    let c1 = tree.add_child(c, 6);

    let order = tree.traversal_order();
    assert_eq!(
        order,
        vec![
            (root, false),
            (a, false),
            (a1, false),
            (a1, true),
            (a, true),
            (b, false),
            (b1, false),
            (b1, true),
            (b, true),
            (c, false),
            (c1, false),
            (c1, true),
            (c, true),
            (root, true),
        ]
    );
}

#[test]
fn traversal_covers_only_the_subtree_of_index_zero() {
    // Nodes added with `add_node` after the first are disconnected roots:
    // the depth-first walk starts at index zero and never reaches them.
    let mut tree = Tree::new();
    let root = tree.add_node("root");
    let child = tree.add_child(root, "child");
    let _stray = tree.add_node("stray");

    assert_eq!(
        tree.traversal_order(),
        vec![(root, false), (child, false), (child, true), (root, true)]
    );
}

#[test]
fn traverse_threads_state_through_every_call() {
    let mut tree = Tree::new();
    let root = tree.add_node(1u64);
    tree.add_child(root, 2);
    tree.add_child(root, 3);

    // Sum the payloads on entry, count the exits: 1 + 2 + 3 entries and
    // three exits.
    let (sum, exits) = tree.traverse(
        |_index: usize, data: &u64, acc: (u64, u64)| (acc.0 + *data, acc.1),
        |_index: usize, _data: &u64, acc: (u64, u64)| (acc.0, acc.1 + 1),
        (0, 0),
    );
    assert_eq!(sum, 6);
    assert_eq!(exits, 3);
}
