use ds::{subtree_delete, Dir, Node, UniquePointer, Value};

// A node is nil exactly when payload and both child links are absent; a
// freshly built node also has no parent.
#[test]
fn law_nil_characterization() {
    let nil = Node::nil();
    assert!(nil.is_nil());
    assert!(nil.value().is_none());
    assert!(nil.left().is_none());
    assert!(nil.right().is_none());
    assert!(nil.parent(&vec![]).is_none());

    let full = Node::new(Value::from(1u8));
    assert!(!full.is_nil());
    let mut half = Node::nil();
    half.set_left(Node::nil());
    assert!(!half.is_nil());
}

// After linking, both directions of the edge are in place: the child's
// parent is the node that linked it, and the parent's slot holds the child.
#[test]
fn law_link_back_references() {
    let mut parent = Node::new(Value::from("parent"));
    parent.set_left(Node::new(Value::from("child")));
    assert_eq!(
        parent.parent_value(&vec![Dir::Left]),
        Some(Value::from("parent"))
    );
    assert_eq!(parent.left_value(), Some(Value::from("child")));

    let mut parent = Node::new(Value::from("parent"));
    parent.set_right(Node::new(Value::from("child")));
    assert_eq!(
        parent.parent_value(&vec![Dir::Right]),
        Some(Value::from("parent"))
    );
    assert_eq!(parent.right_value(), Some(Value::from("child")));
}

// Linking into an occupied slot is rejected: the tree stays as it was and
// the rejected child comes back to the caller.
#[test]
fn law_occupied_slot_rejected() {
    let mut parent = Node::new(Value::from("parent"));
    let accepted = parent.try_set_left(Node::new(Value::from("first")));
    assert!(accepted.is_none());

    let rejected = parent.try_set_left(Node::new(Value::from("second")));
    let rejected = rejected.expect("the occupied slot must reject the link");
    assert_eq!(rejected.value(), Some(Value::from("second")));
    assert_eq!(parent.left_value(), Some(Value::from("first")));

    let rejected_right = {
        parent.set_right(Node::new(Value::from("third")));
        parent.try_set_right(Node::new(Value::from("fourth")))
    };
    assert_eq!(
        rejected_right.expect("occupied").value(),
        Some(Value::from("fourth"))
    );
    assert_eq!(parent.right_value(), Some(Value::from("third")));
}

fn course_tree() -> Node {
    let mut node_a = Node::new(Value::from("A"));
    let mut node_b = Node::new(Value::from("B"));
    node_b.set_left(Node::new(Value::from("D")));
    node_b.set_right(Node::new(Value::from("E")));
    node_a.set_left(node_b);
    node_a.set_right(Node::new(Value::from("C")));
    node_a
        .node_at_mut(&vec![Dir::Left, Dir::Left])
        .set_left(Node::new(Value::from("F")));
    node_a
}

// Walking `successor` from the subtree-first node visits every node once,
// in in-order sequence, and the maximum answers with itself.
#[test]
fn law_successor_traversal() {
    let tree = course_tree();
    let mut cursor = tree.leftmost_vec();
    let mut seen: Vec<Value> = Vec::new();
    for _ in 0..6 {
        seen.push(tree.node_at(&cursor).item());
        let next = tree.successor(&cursor);
        if next == cursor {
            break;
        }
        cursor = next;
    }
    assert_eq!(
        seen,
        vec![
            Value::from("F"),
            Value::from("D"),
            Value::from("B"),
            Value::from("E"),
            Value::from("A"),
            Value::from("C"),
        ]
    );
    assert_eq!(seen, tree.in_order_values());
    // the maximum is a fixed point
    assert_eq!(tree.successor(&cursor), cursor);
}

// Predecessor walks the same sequence backwards, so the two are inverses
// away from the ends.
#[test]
fn law_predecessor_inverts_successor() {
    let tree = course_tree();
    let positions = vec![
        vec![Dir::Left, Dir::Left, Dir::Left], // F
        vec![Dir::Left, Dir::Left],            // D
        vec![Dir::Left],                       // B
        vec![Dir::Left, Dir::Right],           // E
        vec![],                                // A
        vec![Dir::Right],                      // C
    ];
    for i in 0..positions.len() - 1 {
        assert_eq!(tree.successor(&positions[i]), positions[i + 1]);
        assert_eq!(tree.predecessor(&positions[i + 1]), positions[i]);
    }
    // the minimum is a fixed point of predecessor
    assert_eq!(tree.predecessor(&positions[0]), positions[0]);
}

// Deleting the leaf C empties the root's right slot.
#[test]
fn law_delete_leaf_clears_parent_slot() {
    let mut tree = course_tree();
    subtree_delete(&mut tree, &vec![Dir::Right]);
    assert!(tree.right().is_none());
    assert_eq!(
        tree.in_order_values(),
        vec![
            Value::from("F"),
            Value::from("D"),
            Value::from("B"),
            Value::from("E"),
            Value::from("A"),
        ]
    );
}

// Deleting D, which has only the child F, goes through the predecessor
// swap: F's payload moves up into D's old position and F's node vanishes.
#[test]
fn law_delete_inner_node_swaps_with_predecessor() {
    let mut tree = course_tree();
    let before = tree.in_order_values();
    subtree_delete(&mut tree, &vec![Dir::Left, Dir::Left]);
    let after = tree.in_order_values();

    assert_eq!(before.len(), after.len() + 1);
    assert_eq!(
        after,
        vec![
            Value::from("F"),
            Value::from("B"),
            Value::from("E"),
            Value::from("A"),
            Value::from("C"),
        ]
    );
    // F's payload now sits where D stood, and that node became a leaf
    let moved = tree.node_at(&vec![Dir::Left, Dir::Left]);
    assert_eq!(moved.value(), Some(Value::from("F")));
    assert!(moved.leaf());
}

// Deleting from a sorted tree keeps the remaining in-order sequence sorted,
// with exactly one element fewer.
#[test]
fn law_delete_keeps_order() {
    let mut root = Node::new(Value::from(4u8));
    let mut two = Node::new(Value::from(2u8));
    two.set_left(Node::new(Value::from(1u8)));
    two.set_right(Node::new(Value::from(3u8)));
    root.set_left(two);
    root.set_right(Node::new(Value::from(5u8)));
    assert_eq!(
        root.in_order_values(),
        vec![
            Value::from(1u8),
            Value::from(2u8),
            Value::from(3u8),
            Value::from(4u8),
            Value::from(5u8),
        ]
    );
    // delete the node holding 2 (it has both children)
    subtree_delete(&mut root, &vec![Dir::Left]);
    assert_eq!(
        root.in_order_values(),
        vec![
            Value::from(1u8),
            Value::from(3u8),
            Value::from(4u8),
            Value::from(5u8),
        ]
    );
    // delete the root itself (payload 4)
    subtree_delete(&mut root, &vec![]);
    assert_eq!(
        root.in_order_values(),
        vec![Value::from(1u8), Value::from(3u8), Value::from(5u8)]
    );
}

// Inserting after a node places the new payload immediately after that
// node's entry in the in-order sequence.
#[test]
fn law_insert_after_preserves_order() {
    let mut tree = course_tree();
    tree.subtree_insert_after(&vec![], Node::new(Value::from("G")));
    assert_eq!(
        tree.in_order_values(),
        vec![
            Value::from("F"),
            Value::from("D"),
            Value::from("B"),
            Value::from("E"),
            Value::from("A"),
            Value::from("G"),
            Value::from("C"),
        ]
    );

    let mut tree = course_tree();
    tree.subtree_insert_after(&vec![Dir::Right], Node::new(Value::from("H")));
    assert_eq!(
        tree.in_order_values(),
        vec![
            Value::from("F"),
            Value::from("D"),
            Value::from("B"),
            Value::from("E"),
            Value::from("A"),
            Value::from("C"),
            Value::from("H"),
        ]
    );
}

// An aliasing copy and one soft release of each handle bring the reference
// count back to where it stood, before the final physical free.
#[test]
fn law_copy_soft_release_roundtrip() {
    let mut p: UniquePointer<Value> = UniquePointer::from(Value::from("shared"));
    let _ = p.read();
    let before = p.refs();
    assert_eq!(before, 1);

    let mut alias = p.copy();
    assert_eq!(p.refs(), before + 1);
    assert_eq!(alias.refs(), before + 1);
    assert!(alias.is_copy());
    assert!(!p.is_copy());

    alias.dealloc(true);
    assert_eq!(alias.refs(), before);
    p.dealloc(true);
    assert_eq!(p.refs(), before);

    // the final physical free returns the owner to null
    p.dealloc(false);
    assert!(p.is_null());
    assert_eq!(p.refs(), 0);
}

// `disconnect` detaches a subtree and gives back the references its edge
// held on both ends.
#[test]
fn law_disconnect_detaches_subtree() {
    let mut tree = course_tree();
    let sub = tree.disconnect(&vec![Dir::Left]);
    assert!(tree.left().is_none());
    assert_eq!(sub.value(), Some(Value::from("B")));
    assert_eq!(
        sub.in_order_values(),
        vec![
            Value::from("F"),
            Value::from("D"),
            Value::from("B"),
            Value::from("E"),
        ]
    );
    assert_eq!(
        tree.in_order_values(),
        vec![Value::from("A"), Value::from("C")]
    );
}

// `dealloc` gives one reference back while any are outstanding and resets
// the node once none are left.
#[test]
fn law_node_dealloc() {
    let mut node = Node::new(Value::from("X"));
    node.set_left(Node::new(Value::from("Y")));
    assert_eq!(node.refs(), 1);
    node.dealloc();
    assert_eq!(node.refs(), 0);
    assert!(!node.is_nil());
    node.dealloc();
    assert!(node.is_nil());
}

// `delete_left` and `delete_right` clear one slot and give the parent's
// reference back.
#[test]
fn law_delete_left_right() {
    let mut node = Node::new(Value::from("X"));
    node.set_left(Node::new(Value::from("Y")));
    node.set_right(Node::new(Value::from("Z")));
    assert_eq!(node.refs(), 2);
    node.delete_left();
    assert!(node.left().is_none());
    assert_eq!(node.refs(), 1);
    node.delete_right();
    assert!(node.right().is_none());
    assert_eq!(node.refs(), 0);
    node.delete_left();
    assert_eq!(node.refs(), 0);
}

// `swap_item` exchanges exactly the two payloads.
#[test]
fn law_swap_item() {
    let mut tree = course_tree();
    tree.swap_item(&vec![], &vec![Dir::Right]);
    assert_eq!(tree.value(), Some(Value::from("C")));
    assert_eq!(tree.right_value(), Some(Value::from("A")));
    assert_eq!(tree.left_value(), Some(Value::from("B")));
}

// The nil value is its own kind: it equals itself and nothing else.
#[test]
fn law_value_nil() {
    assert!(Value::nil().is_nil());
    assert!(!Value::from(0u8).is_nil());
    assert_eq!(Value::text("abc"), Value::from("abc"));
    assert_ne!(Value::from(1u8), Value::from(1u64));
    assert_ne!(Value::from("a"), Value::from("b"));
}
