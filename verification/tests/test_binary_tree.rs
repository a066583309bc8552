use ds::{Dir, Node, Value};

// The tree built by every test here:
//
//          A
//         / \
//        B   C
//       / \
//      D   E
//     /
//    F
//
// A is the root; the other nodes are named by their paths from it.
fn initial_state() -> Node {
    let mut node_a = Node::new(Value::from("A"));
    let mut node_b = Node::new(Value::from("B"));
    let node_c = Node::new(Value::from("C"));
    let node_d = Node::new(Value::from("D"));
    let node_e = Node::new(Value::from("E"));
    let node_f = Node::new(Value::from("F"));

    assert_eq!(node_a.value(), Some(Value::from("A")));
    assert_eq!(node_b.value(), Some(Value::from("B")));
    assert_eq!(node_c.value(), Some(Value::from("C")));
    assert_eq!(node_d.value(), Some(Value::from("D")));
    assert_eq!(node_e.value(), Some(Value::from("E")));
    assert_eq!(node_f.value(), Some(Value::from("F")));

    // set D as in left of B
    node_b.set_left(node_d);

    // set B as in left of A before setting E as right of B,
    // so as to test that inner nodes can still be linked through paths
    node_a.set_left(node_b);

    // set C as right of A
    node_a.set_right(node_c);

    // set E in right of B, which now sits inside A
    node_a.node_at_mut(&vec![Dir::Left]).set_right(node_e);

    // set F as left of D
    node_a.node_at_mut(&vec![Dir::Left, Dir::Left]).set_left(node_f);

    let pa: Vec<Dir> = vec![];
    let pb = vec![Dir::Left];
    let pc = vec![Dir::Right];
    let pd = vec![Dir::Left, Dir::Left];
    let pe = vec![Dir::Left, Dir::Right];
    let pf = vec![Dir::Left, Dir::Left, Dir::Left];

    assert_eq!(node_a.parent_value(&pb), node_a.value());
    assert_eq!(node_a.parent_value(&pc), node_a.value());
    assert_eq!(node_a.parent_value(&pd), node_a.node_at(&pb).value());
    assert_eq!(node_a.parent_value(&pe), node_a.node_at(&pb).value());
    assert_eq!(node_a.parent_value(&pf), node_a.node_at(&pd).value());

    assert_eq!(node_a.parent(&pb), Some(node_a.node_at(&pa)));
    assert_eq!(node_a.parent(&pc), Some(node_a.node_at(&pa)));
    assert_eq!(node_a.parent(&pd), Some(node_a.node_at(&pb)));
    assert_eq!(node_a.parent(&pe), Some(node_a.node_at(&pb)));
    assert_eq!(node_a.parent(&pf), Some(node_a.node_at(&pd)));

    assert_eq!(node_a.left(), Some(node_a.node_at(&pb)));
    assert_eq!(node_a.right(), Some(node_a.node_at(&pc)));
    assert_eq!(node_a.parent(&pa), None);

    assert_eq!(node_a.node_at(&pb).left(), Some(node_a.node_at(&pd)));
    assert_eq!(node_a.node_at(&pb).right(), Some(node_a.node_at(&pe)));

    assert!(node_a.node_at(&pc).left().is_none());
    assert!(node_a.node_at(&pc).right().is_none());

    assert_eq!(node_a.node_at(&pd).left(), Some(node_a.node_at(&pf)));
    assert!(node_a.node_at(&pd).right().is_none());

    assert!(node_a.node_at(&pf).left().is_none());
    assert!(node_a.node_at(&pf).right().is_none());

    // each link counts one reference at both of its ends
    assert_eq!(node_a.refs(), 2);
    assert_eq!(node_a.node_at(&pb).refs(), 3);
    assert_eq!(node_a.node_at(&pc).refs(), 1);
    assert_eq!(node_a.node_at(&pd).refs(), 2);
    assert_eq!(node_a.node_at(&pe).refs(), 1);
    assert_eq!(node_a.node_at(&pf).refs(), 1);

    node_a
}

#[test]
fn test_binary_tree_test_tree_initial_state() {
    initial_state();
}

#[test]
fn test_tree_property_height() {
    let tree = initial_state();

    assert_eq!(tree.node_at(&vec![Dir::Right]).height(), 0); // leaf
    assert_eq!(tree.node_at(&vec![Dir::Left, Dir::Right]).height(), 0); // leaf
    assert_eq!(tree.node_at(&vec![Dir::Left, Dir::Left, Dir::Left]).height(), 0); // leaf

    assert_eq!(tree.height(), 3);

    assert_eq!(tree.node_at(&vec![Dir::Left]).height(), 2);

    assert_eq!(tree.node_at(&vec![Dir::Left, Dir::Left]).height(), 1);
}

#[test]
fn test_tree_property_depth() {
    let tree = initial_state();

    assert_eq!(tree.depth(&vec![]), 0);

    assert_eq!(tree.depth(&vec![Dir::Left]), 1);
    assert_eq!(tree.depth(&vec![Dir::Right]), 1);

    assert_eq!(tree.depth(&vec![Dir::Left, Dir::Right]), 2);
    assert_eq!(tree.depth(&vec![Dir::Left, Dir::Left]), 2);

    assert_eq!(tree.depth(&vec![Dir::Left, Dir::Left, Dir::Left]), 3);
}

#[test]
fn test_tree_property_leaf() {
    let tree = initial_state();

    assert_eq!(tree.leaf(), false);

    assert_eq!(tree.node_at(&vec![Dir::Left]).leaf(), false);
    assert_eq!(tree.node_at(&vec![Dir::Right]).leaf(), true);

    assert_eq!(tree.node_at(&vec![Dir::Left, Dir::Left]).leaf(), false);
    assert_eq!(tree.node_at(&vec![Dir::Left, Dir::Right]).leaf(), true);

    assert_eq!(tree.node_at(&vec![Dir::Left, Dir::Left, Dir::Left]).leaf(), true);
}

#[test]
fn test_tree_operation_subtree_first() {
    let tree = initial_state();
    let pf = vec![Dir::Left, Dir::Left, Dir::Left];

    assert_eq!(tree.subtree_first(), tree.node_at(&pf));
    assert_eq!(tree.node_at(&vec![Dir::Left]).subtree_first(), tree.node_at(&pf));
    assert_eq!(tree.node_at(&vec![Dir::Left, Dir::Left]).subtree_first(), tree.node_at(&pf));
    assert_eq!(tree.node_at(&pf).subtree_first(), tree.node_at(&pf));

    let pe = vec![Dir::Left, Dir::Right];
    assert_eq!(tree.node_at(&pe).subtree_first(), tree.node_at(&pe));
    let pc = vec![Dir::Right];
    assert_eq!(tree.node_at(&pc).subtree_first(), tree.node_at(&pc));
}

#[test]
fn test_tree_operation_successor() {
    let tree = initial_state();
    let pa: Vec<Dir> = vec![];
    let pb = vec![Dir::Left];
    let pc = vec![Dir::Right];
    let pd = vec![Dir::Left, Dir::Left];
    let pe = vec![Dir::Left, Dir::Right];
    let pf = vec![Dir::Left, Dir::Left, Dir::Left];

    assert_eq!(tree.successor(&pe), pa);
    assert_eq!(tree.successor(&pf), pd);
    assert_eq!(tree.successor(&pb), pe);
    assert_eq!(tree.successor(&pd), pb);
    assert_eq!(tree.successor(&pa), pc);
    assert_eq!(tree.successor(&pc), pc);
}

#[test]
fn test_tree_operation_successor_of_c() {
    let mut tree = initial_state();
    let pc = vec![Dir::Right];

    let node_g = Node::new(Value::from("G"));
    tree.node_at_mut(&pc).set_left(node_g);

    let pg = vec![Dir::Right, Dir::Left];
    assert_eq!(tree.successor(&pc), pg);
    assert_eq!(tree.node_at(&pg).value(), Some(Value::from("G")));
}

#[test]
fn test_tree_operation_subtree_first_mut() {
    let mut tree = initial_state();

    assert_eq!(tree.subtree_first_mut(), &mut Node::new(Value::from("F")));
    assert_eq!(
        tree.node_at_mut(&vec![Dir::Left]).subtree_first_mut(),
        &mut Node::new(Value::from("F"))
    );
    assert_eq!(
        tree.node_at_mut(&vec![Dir::Left, Dir::Left]).subtree_first_mut(),
        &mut Node::new(Value::from("F"))
    );
    assert_eq!(
        tree.node_at_mut(&vec![Dir::Left, Dir::Left, Dir::Left]).subtree_first_mut(),
        &mut Node::new(Value::from("F"))
    );

    assert_eq!(
        tree.node_at_mut(&vec![Dir::Left, Dir::Right]).subtree_first_mut(),
        &mut Node::new(Value::from("E"))
    );
    assert_eq!(
        tree.node_at_mut(&vec![Dir::Right]).subtree_first_mut(),
        &mut Node::new(Value::from("C"))
    );
}

#[test]
fn test_tree_operation_successor_mut() {
    let mut tree = initial_state();
    let pa: Vec<Dir> = vec![];
    let pb = vec![Dir::Left];
    let pc = vec![Dir::Right];
    let pd = vec![Dir::Left, Dir::Left];
    let pe = vec![Dir::Left, Dir::Right];
    let pf = vec![Dir::Left, Dir::Left, Dir::Left];

    assert_eq!(tree.successor_mut(&pe), &mut Node::new(Value::from("A")));
    assert_eq!(tree.successor_mut(&pf), &mut Node::new(Value::from("D")));
    assert_eq!(tree.successor_mut(&pb), &mut Node::new(Value::from("E")));
    assert_eq!(tree.successor_mut(&pd), &mut Node::new(Value::from("B")));
    assert_eq!(tree.successor_mut(&pa), &mut Node::new(Value::from("C")));
    assert_eq!(tree.successor_mut(&pc), &mut Node::new(Value::from("C")));
}

#[test]
fn test_tree_operation_successor_mut_of_c() {
    let mut tree = initial_state();
    let pc = vec![Dir::Right];

    let node_g = Node::new(Value::from("G"));
    tree.node_at_mut(&pc).set_left(node_g);

    assert_eq!(tree.successor_mut(&pc), &mut Node::new(Value::from("G")));
}

#[test]
fn test_tree_operation_subtree_insert_after_node_when_node_left_is_null() {
    let mut tree = initial_state();
    let pc = vec![Dir::Right];

    let node_g = Node::new(Value::from("G"));
    tree.subtree_insert_after(&pc, node_g);

    // C had no right child, so G became C's right child.
    let pg = vec![Dir::Right, Dir::Right];
    assert_eq!(tree.parent_value(&pg), Some(Value::from("C")));
}

#[test]
fn test_tree_operation_subtree_insert_after_node_when_node_right_is_non_null() {
    let mut tree = initial_state();
    let pa: Vec<Dir> = vec![];

    let node_g = Node::new(Value::from("G"));
    tree.subtree_insert_after(&pa, node_g);

    // A's right child is C, so G became the left child of A's successor C.
    let pg = vec![Dir::Right, Dir::Left];
    assert_eq!(tree.parent_value(&pg), tree.right_value());
}
