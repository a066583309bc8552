use ds::{DeepClone, Dir, Node, Value};

#[test]
fn test_node_nil() {
    let node = Node::nil();

    assert_eq!(node.is_nil(), true);
    assert_eq!(node.parent(&vec![]), None);
    assert_eq!(node.value(), None);
    assert!(node.left().is_none());
    assert!(node.right().is_none());
    assert_eq!(node.left_value(), None);
    assert_eq!(node.right_value(), None);
}

#[test]
fn test_node_new() {
    let node = Node::new(Value::from("value"));
    assert_eq!(node.is_nil(), false);
    assert_eq!(node.parent(&vec![]), None);
    assert!(node.left().is_none());
    assert!(node.right().is_none());
    assert_eq!(node.left_value(), None);
    assert_eq!(node.right_value(), None);

    assert_eq!(node.value(), Some(Value::from("value")));
}

#[test]
fn test_set_left() {
    let mut node = Node::new(Value::from("value"));
    let left = Node::new(Value::from("left"));

    node.set_left(left);

    assert_eq!(node.parent(&vec![Dir::Left]), Some(&node));

    assert_eq!(node.is_nil(), false);
    assert_eq!(node.parent(&vec![]), None);
    assert_eq!(node.left(), Some(&Node::new(Value::from("left"))));
    assert!(node.right().is_none());
    assert_eq!(node.left_value(), Some(Value::from("left")));
    assert_eq!(node.right_value(), None);
}

#[test]
fn test_set_right() {
    let mut node = Node::new(Value::from("value"));
    let right = Node::new(Value::from("right"));

    node.set_right(right);

    assert_eq!(node.parent(&vec![Dir::Right]), Some(&node));

    assert_eq!(node.is_nil(), false);
    assert_eq!(node.parent(&vec![]), None);
    assert_eq!(node.right(), Some(&Node::new(Value::from("right"))));
    assert!(node.left().is_none());
    assert_eq!(node.left_value(), None);
    assert_eq!(node.right_value(), Some(Value::from("right")));
}

#[test]
fn test_clone_null() {
    let node = Node::nil();
    assert_eq!(node.deep_clone(), Node::nil());
}

#[test]
fn test_clone_non_null() {
    let mut node = Node::new(Value::from("value"));
    let left = Node::new(Value::from("left"));
    let right = Node::new(Value::from("right"));

    node.set_left(left);
    node.set_right(right);

    let tree = node.deep_clone();

    assert_eq!(node.parent(&vec![]), None);
    assert_eq!(node.is_nil(), false);
    assert_eq!(node.left(), tree.left());
    assert_eq!(node.right(), tree.right());
    assert_eq!(node.left_value(), Some(Value::from("left")));
    assert_eq!(node.right_value(), Some(Value::from("right")));
    assert_eq!(node, tree);
}
