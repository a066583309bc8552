use vstd::prelude::*;

use crate::deep_clone::DeepClone;
use crate::value::Value;

verus! {

/// A simple binary-tree node: a payload and two owned children, with no
/// back-references and no reference counting.  Linking stores a copy of the
/// given node's payload in a fresh child.
#[derive(Debug)]
pub struct Node {
    pub item: Option<Value>,
    pub left: Option<Box<Node>>,
    pub right: Option<Box<Node>>,
}

impl Node {
    /// The payload, with the nil value standing in for an absent one.
    pub open spec fn payload(self) -> Value {
        match self.item {
            Option::Some(v) => v,
            Option::None => Value::Nil,
        }
    }

    /// The nil node: no payload and no children.
    pub fn nil() -> (r: Node)
        ensures
            r.item is None,
            r.left is None,
            r.right is None,
    {
        Node { item: Option::None, left: Option::None, right: Option::None }
    }

    /// True exactly when payload and both child links are absent.
    pub fn is_nil(&self) -> (r: bool)
        ensures
            r == (self.item is None && self.left is None && self.right is None),
    {
        self.item.is_none() && self.left.is_none() && self.right.is_none()
    }

    /// A detached node carrying `value`.
    pub fn new(value: Value) -> (r: Node)
        ensures
            r.item == Some(value),
            r.left is None,
            r.right is None,
    {
        Node { item: Option::Some(value), left: Option::None, right: Option::None }
    }

    /// A copy of the payload, with the nil value standing in for an absent
    /// one.
    pub fn value(&self) -> (r: Value)
        ensures
            r == self.payload(),
    {
        match &self.item {
            Option::Some(v) => v.deep_clone(),
            Option::None => Value::Nil,
        }
    }

    /// Makes a fresh leaf holding a copy of `node`'s payload, installs it as
    /// the left child, and returns the previous left subtree.
    pub fn set_left(&mut self, node: &Node) -> (r: Option<Node>)
        ensures
            final(self).item == old(self).item,
            final(self).right == old(self).right,
            final(self).left is Some,
            *final(self).left.unwrap() == (Node {
                item: Some(node.payload()),
                left: Option::<Box<Node>>::None,
                right: Option::<Box<Node>>::None,
            }),
            r is Some <==> old(self).left is Some,
            r matches Some(n) ==> n == *old(self).left.unwrap(),
    {
        let child = Node { item: Option::Some(node.value()), left: Option::None, right: Option::None };
        let previous = self.left.take();
        self.left = Option::Some(Box::new(child));
        match previous {
            Option::Some(b) => Option::Some(*b),
            Option::None => Option::None,
        }
    }

    /// Makes a fresh leaf holding a copy of `node`'s payload, installs it as
    /// the right child, and returns the previous right subtree.
    pub fn set_right(&mut self, node: &Node) -> (r: Option<Node>)
        ensures
            final(self).item == old(self).item,
            final(self).left == old(self).left,
            final(self).right is Some,
            *final(self).right.unwrap() == (Node {
                item: Some(node.payload()),
                left: Option::<Box<Node>>::None,
                right: Option::<Box<Node>>::None,
            }),
            r is Some <==> old(self).right is Some,
            r matches Some(n) ==> n == *old(self).right.unwrap(),
    {
        let child = Node { item: Option::Some(node.value()), left: Option::None, right: Option::None };
        let previous = self.right.take();
        self.right = Option::Some(Box::new(child));
        match previous {
            Option::Some(b) => Option::Some(*b),
            Option::None => Option::None,
        }
    }

    /// The left child.
    pub fn left(&self) -> (r: Option<&Node>)
        ensures
            r is Some <==> self.left is Some,
            r matches Some(n) ==> *n == *self.left.unwrap(),
    {
        match &self.left {
            Option::Some(l) => Option::Some(&**l),
            Option::None => Option::None,
        }
    }

    /// The right child.
    pub fn right(&self) -> (r: Option<&Node>)
        ensures
            r is Some <==> self.right is Some,
            r matches Some(n) ==> *n == *self.right.unwrap(),
    {
        match &self.right {
            Option::Some(n) => Option::Some(&**n),
            Option::None => Option::None,
        }
    }

    /// A copy of the left child's payload, with the nil value standing in
    /// both for an absent child and for an absent payload.
    pub fn left_value(&self) -> (r: Value)
        ensures
            r == (match self.left {
                Option::Some(l) => l.payload(),
                Option::None => Value::Nil,
            }),
    {
        match &self.left {
            Option::Some(l) => (&**l).value(),
            Option::None => Value::Nil,
        }
    }

    /// A copy of the right child's payload, with the nil value standing in
    /// both for an absent child and for an absent payload.
    pub fn right_value(&self) -> (r: Value)
        ensures
            r == (match self.right {
                Option::Some(n) => n.payload(),
                Option::None => Value::Nil,
            }),
    {
        match &self.right {
            Option::Some(n) => (&**n).value(),
            Option::None => Value::Nil,
        }
    }
}

} // verus!
