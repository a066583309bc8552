use vstd::prelude::*;

use crate::deep_clone::DeepClone;
use crate::value::Value;

verus! {

/// One step down a tree: into the left or the right child.
#[derive(Clone, Copy, PartialEq, Eq, Structural, Debug)]
pub enum Dir {
    Left,
    Right,
}

/// A binary-tree node owning its two subtrees.  A node inside a tree is named
/// by its path from the root: the sequence of `Dir` steps that reaches it.
/// The node with no payload, no children (and, standing alone, no parent) is
/// the nil node.
///
/// `refs` is the node's reference count: linking a child counts one reference
/// on each end of the new edge, unlinking gives it back.
#[derive(Debug)]
pub struct Node {
    pub item: Option<Value>,
    pub left: Option<Box<Node>>,
    pub right: Option<Box<Node>>,
    pub refs: usize,
}

impl Node {
    /// The payload, with the nil value standing in for an absent one.
    pub open spec fn payload(self) -> Value {
        match self.item {
            Option::Some(v) => v,
            Option::None => Value::Nil,
        }
    }

    /// Node count of an optional subtree.
    pub open spec fn count_opt(o: Option<Box<Node>>) -> nat
        decreases o,
    {
        match o {
            Option::Some(n) => n.count(),
            Option::None => 0,
        }
    }

    /// How many nodes the subtree holds, this node included.
    pub open spec fn count(self) -> nat
        decreases self,
    {
        1 + Node::count_opt(self.left) + Node::count_opt(self.right)
    }

    /// In-order payload sequence of an optional subtree.
    pub open spec fn iv_opt(o: Option<Box<Node>>) -> Seq<Value>
        decreases o,
    {
        match o {
            Option::Some(n) => n.iv(),
            Option::None => Seq::empty(),
        }
    }

    /// The in-order payload sequence: left subtree, this node, right subtree.
    pub open spec fn iv(self) -> Seq<Value>
        decreases self,
    {
        Node::iv_opt(self.left) + seq![self.payload()] + Node::iv_opt(self.right)
    }

    /// Whether `p` names a node of this tree: every step must have the
    /// corresponding child present.
    pub open spec fn valid_path(self, p: Seq<Dir>) -> bool
        decreases p.len(),
    {
        p.len() == 0 || {
            if p[0] == Dir::Left {
                self.left is Some && self.left.unwrap().valid_path(p.skip(1))
            } else {
                self.right is Some && self.right.unwrap().valid_path(p.skip(1))
            }
        }
    }

    /// The node that `p` names (meaningful on valid paths).
    pub open spec fn node_at_spec(self, p: Seq<Dir>) -> Node
        decreases p.len(),
    {
        if p.len() == 0 {
            self
        } else if p[0] == Dir::Left {
            if self.left is Some {
                self.left.unwrap().node_at_spec(p.skip(1))
            } else {
                self
            }
        } else {
            if self.right is Some {
                self.right.unwrap().node_at_spec(p.skip(1))
            } else {
                self
            }
        }
    }

    /// The tree with the subtree at `p` replaced by `m`, everything else as
    /// it was.
    pub open spec fn replace_at(self, p: Seq<Dir>, m: Node) -> Node
        decreases p.len(),
    {
        if p.len() == 0 {
            m
        } else if p[0] == Dir::Left {
            if self.left is Some {
                Node {
                    left: Option::Some(Box::new(self.left.unwrap().replace_at(p.skip(1), m))),
                    ..self
                }
            } else {
                self
            }
        } else {
            if self.right is Some {
                Node {
                    right: Option::Some(Box::new(self.right.unwrap().replace_at(p.skip(1), m))),
                    ..self
                }
            } else {
                self
            }
        }
    }

    /// Path to the leftmost descendant: follow left children while they
    /// exist.
    pub open spec fn leftmost_of(self) -> Seq<Dir>
        decreases self,
    {
        match self.left {
            Option::Some(l) => seq![Dir::Left] + l.leftmost_of(),
            Option::None => Seq::empty(),
        }
    }

    /// Path to the rightmost descendant: follow right children while they
    /// exist.
    pub open spec fn rightmost_of(self) -> Seq<Dir>
        decreases self,
    {
        match self.right {
            Option::Some(r) => seq![Dir::Right] + r.rightmost_of(),
            Option::None => Seq::empty(),
        }
    }

    /// The last position in `p` holding direction `d`, or -1 when none does.
    pub open spec fn last_index_of_dir(p: Seq<Dir>, d: Dir) -> int
        decreases p.len(),
    {
        if p.len() == 0 {
            -1
        } else if p.last() == d {
            p.len() - 1
        } else {
            Node::last_index_of_dir(p.drop_last(), d)
        }
    }

    /// The in-order position of the node at `p` within this tree.
    pub open spec fn pos_of(self, p: Seq<Dir>) -> int
        decreases p.len(),
    {
        if p.len() == 0 {
            Node::count_opt(self.left) as int
        } else if p[0] == Dir::Left {
            if self.left is Some {
                self.left.unwrap().pos_of(p.skip(1))
            } else {
                0
            }
        } else {
            Node::count_opt(self.left) + 1 + (if self.right is Some {
                self.right.unwrap().pos_of(p.skip(1))
            } else {
                0
            })
        }
    }

    /// The one irregular input to `succ_spec`: the root's right child with
    /// no right subtree but a left one.  There the successor falls back to
    /// the subtree's own leftmost node, which lies before it in in-order.
    pub open spec fn succ_regular(self, p: Seq<Dir>) -> bool {
        !(p == seq![Dir::Right] && self.node_at_spec(p).right is None && self.node_at_spec(
            p,
        ).left is Some)
    }

    /// Every path of `s` with `d` prepended.
    pub open spec fn prepend_all(d: Dir, s: Seq<Seq<Dir>>) -> Seq<Seq<Dir>> {
        s.map_values(|p: Seq<Dir>| seq![d] + p)
    }

    /// The paths of all nodes of this tree, in in-order sequence.
    pub open spec fn inorder_paths(self) -> Seq<Seq<Dir>>
        decreases self,
    {
        (match self.left {
            Option::Some(l) => Node::prepend_all(Dir::Left, l.inorder_paths()),
            Option::None => Seq::empty(),
        }) + seq![Seq::<Dir>::empty()] + (match self.right {
            Option::Some(r) => Node::prepend_all(Dir::Right, r.inorder_paths()),
            Option::None => Seq::empty(),
        })
    }

    /// The nil node: no payload, no children, no references.
    pub fn nil() -> (r: Node)
        ensures
            r.item is None,
            r.left is None,
            r.right is None,
            r.refs == 0,
    {
        Node { item: Option::None, left: Option::None, right: Option::None, refs: 0 }
    }

    /// A detached node carrying `value`.
    pub fn new(value: Value) -> (r: Node)
        ensures
            r.item == Some(value),
            r.left is None,
            r.right is None,
            r.refs == 0,
            r.payload() == value,
    {
        Node { item: Option::Some(value), left: Option::None, right: Option::None, refs: 0 }
    }

    /// True exactly when payload and both child links are absent.  A node
    /// standing on its own also has no parent, so this decides the nil node.
    pub fn is_nil(&self) -> (r: bool)
        ensures
            r == (self.item is None && self.left is None && self.right is None),
    {
        self.item.is_none() && self.left.is_none() && self.right.is_none()
    }

    /// A copy of the payload, `None` when it is absent.
    pub fn value(&self) -> (r: Option<Value>)
        ensures
            r == self.item,
    {
        match &self.item {
            Option::Some(v) => Option::Some(v.deep_clone()),
            Option::None => Option::None,
        }
    }

    /// A copy of the payload, with the nil value standing in for an absent
    /// one.
    pub fn item(&self) -> (r: Value)
        ensures
            r == self.payload(),
    {
        match &self.item {
            Option::Some(v) => v.deep_clone(),
            Option::None => Value::Nil,
        }
    }

    /// The left child.
    pub fn left(&self) -> (r: Option<&Node>)
        ensures
            r is Some <==> self.left is Some,
            r matches Some(n) ==> *n == *self.left.unwrap(),
    {
        match &self.left {
            Option::Some(l) => Option::Some(&**l),
            Option::None => Option::None,
        }
    }

    /// The right child.
    pub fn right(&self) -> (r: Option<&Node>)
        ensures
            r is Some <==> self.right is Some,
            r matches Some(n) ==> *n == *self.right.unwrap(),
    {
        match &self.right {
            Option::Some(r) => Option::Some(&**r),
            Option::None => Option::None,
        }
    }

    /// A copy of the left child's payload, `None` when there is no left child
    /// or it has no payload.
    pub fn left_value(&self) -> (r: Option<Value>)
        ensures
            r == (match self.left {
                Option::Some(l) => l.item,
                Option::None => Option::<Value>::None,
            }),
    {
        match &self.left {
            Option::Some(l) => (&**l).value(),
            Option::None => Option::None,
        }
    }

    /// A copy of the right child's payload, `None` when there is no right
    /// child or it has no payload.
    pub fn right_value(&self) -> (r: Option<Value>)
        ensures
            r == (match self.right {
                Option::Some(n) => n.item,
                Option::None => Option::<Value>::None,
            }),
    {
        match &self.right {
            Option::Some(n) => (&**n).value(),
            Option::None => Option::None,
        }
    }

    /// True when the node has no children.
    pub fn leaf(&self) -> (r: bool)
        ensures
            r == (self.left is None && self.right is None),
    {
        self.left.is_none() && self.right.is_none()
    }

    /// The node's reference count.
    pub fn refs(&self) -> (r: usize)
        ensures
            r == self.refs,
    {
        self.refs
    }

    /// The length of the left spine: how many left edges lead down to the
    /// leftmost descendant.  (This measures the left spine only; it is not
    /// the textbook subtree height.)
    pub fn height(&self) -> (r: usize)
        requires
            self.leftmost_of().len() <= usize::MAX,
        ensures
            r == self.leftmost_of().len(),
        decreases *self,
    {
        match &self.left {
            Option::Some(l) => 1 + (&**l).height(),
            Option::None => 0,
        }
    }

    /// Whether `path` names a node of this tree.
    pub fn has_path(&self, path: &Vec<Dir>) -> (r: bool)
        ensures
            r == self.valid_path(path@),
    {
        proof {
            assert(path@.skip(0) =~= path@);
        }
        self.has_path_from(path, 0)
    }

    /// Whether the steps of `path` from `i` on name a node of this subtree.
    fn has_path_from(&self, path: &Vec<Dir>, i: usize) -> (r: bool)
        requires
            i <= path@.len(),
        ensures
            r == self.valid_path(path@.skip(i as int)),
        decreases path@.len() - i,
    {
        if i == path.len() {
            proof {
                assert(path@.skip(i as int) =~= Seq::<Dir>::empty());
            }
            true
        } else {
            proof {
                assert(path@.skip(i as int)[0] == path@[i as int]);
                assert(path@.skip(i as int).skip(1) =~= path@.skip(i as int + 1));
                assert(path@.skip(i as int).len() > 0);
            }
            let step = path[i];
            match step {
                Dir::Left => {
                    match &self.left {
                        Option::Some(l) => (&**l).has_path_from(path, i + 1),
                        Option::None => false,
                    }
                },
                Dir::Right => {
                    match &self.right {
                        Option::Some(r) => (&**r).has_path_from(path, i + 1),
                        Option::None => false,
                    }
                },
            }
        }
    }

    /// The node a valid path names, read-only.
    pub fn node_at(&self, path: &Vec<Dir>) -> (r: &Node)
        requires
            self.valid_path(path@),
        ensures
            *r == self.node_at_spec(path@),
    {
        proof {
            assert(path@.subrange(0, path@.len() as int) =~= path@);
        }
        self.node_at_seg(path, 0, path.len())
    }

    /// The node named by the part of `path` between steps `i` and `n`.
    fn node_at_seg(&self, path: &Vec<Dir>, i: usize, n: usize) -> (r: &Node)
        requires
            i <= n <= path@.len(),
            self.valid_path(path@.subrange(i as int, n as int)),
        ensures
            *r == self.node_at_spec(path@.subrange(i as int, n as int)),
        decreases n - i,
    {
        if i == n {
            proof {
                assert(path@.subrange(i as int, n as int) =~= Seq::<Dir>::empty());
            }
            self
        } else {
            proof {
                assert(path@.subrange(i as int, n as int)[0] == path@[i as int]);
                assert(path@.subrange(i as int, n as int).skip(1) =~= path@.subrange(
                    i as int + 1,
                    n as int,
                ));
            }
            let step = path[i];
            match step {
                Dir::Left => {
                    match &self.left {
                        Option::Some(l) => (&**l).node_at_seg(path, i + 1, n),
                        Option::None => unreached(),
                    }
                },
                Dir::Right => {
                    match &self.right {
                        Option::Some(r) => (&**r).node_at_seg(path, i + 1, n),
                        Option::None => unreached(),
                    }
                },
            }
        }
    }

    /// The parent of the node `path` names, `None` at the root.
    pub fn parent(&self, path: &Vec<Dir>) -> (r: Option<&Node>)
        requires
            self.valid_path(path@),
        ensures
            r is Some <==> path@.len() > 0,
            r matches Some(n) ==> *n == self.node_at_spec(path@.drop_last()),
    {
        if path.len() == 0 {
            Option::None
        } else {
            proof {
                lemma_valid_take(*self, path@, path@.len() - 1);
                assert(path@.take(path@.len() - 1) =~= path@.drop_last());
                assert(path@.subrange(0, path@.len() - 1) =~= path@.drop_last());
            }
            Option::Some(self.node_at_seg(path, 0, path.len() - 1))
        }
    }

    /// A copy of the payload of the parent of the node `path` names.
    pub fn parent_value(&self, path: &Vec<Dir>) -> (r: Option<Value>)
        requires
            self.valid_path(path@),
        ensures
            r == (if path@.len() > 0 {
                self.node_at_spec(path@.drop_last()).item
            } else {
                Option::<Value>::None
            }),
    {
        match self.parent(path) {
            Option::Some(n) => n.value(),
            Option::None => Option::None,
        }
    }

    /// How many parent edges lead from the node `path` names up to the root.
    pub fn depth(&self, path: &Vec<Dir>) -> (r: usize)
        requires
            self.valid_path(path@),
        ensures
            r == path@.len(),
    {
        path.len()
    }

    /// The node a valid path names, for mutation.  Afterwards the tree is the
    /// old tree with whatever the caller leaves behind the borrow grafted in
    /// at `path`.
    pub fn node_at_mut(&mut self, path: &Vec<Dir>) -> (r: &mut Node)
        requires
            old(self).valid_path(path@),
        ensures
            *r == old(self).node_at_spec(path@),
            *final(self) == old(self).replace_at(path@, *final(r)),
    {
        proof {
            assert(path@.skip(0) =~= path@);
        }
        self.node_at_mut_from(path, 0)
    }

    /// `node_at_mut` from step `i` of the path on.
    fn node_at_mut_from(&mut self, path: &Vec<Dir>, i: usize) -> (r: &mut Node)
        requires
            i <= path@.len(),
            old(self).valid_path(path@.skip(i as int)),
        ensures
            *r == old(self).node_at_spec(path@.skip(i as int)),
            *final(self) == old(self).replace_at(path@.skip(i as int), *final(r)),
        decreases path@.len() - i,
    {
        if i == path.len() {
            proof {
                assert(path@.skip(i as int) =~= Seq::<Dir>::empty());
            }
            self
        } else {
            proof {
                assert(path@.skip(i as int)[0] == path@[i as int]);
                assert(path@.skip(i as int).skip(1) =~= path@.skip(i as int + 1));
            }
            let step = path[i];
            match step {
                Dir::Left => {
                    match &mut self.left {
                        Option::Some(l) => (&mut **l).node_at_mut_from(path, i + 1),
                        Option::None => unreached(),
                    }
                },
                Dir::Right => {
                    match &mut self.right {
                        Option::Some(r) => (&mut **r).node_at_mut_from(path, i + 1),
                        Option::None => unreached(),
                    }
                },
            }
        }
    }

    /// The tree with only the payload at `p` replaced.
    pub open spec fn item_replaced(self, p: Seq<Dir>, it: Option<Value>) -> Node {
        self.replace_at(p, Node { item: it, ..self.node_at_spec(p) })
    }

    /// The tree with the payloads at `a` and `b` exchanged.
    pub open spec fn items_swapped(self, a: Seq<Dir>, b: Seq<Dir>) -> Node {
        self.item_replaced(b, self.node_at_spec(a).item).item_replaced(
            a,
            self.node_at_spec(b).item,
        )
    }

    /// The nodes that removal accepts: the path must name a node; a node with no
    /// left child must be a leaf (on one with only a right child the
    /// predecessor walk would not descend); and a lone leaf, the whole tree,
    /// cannot be removed.
    pub open spec fn delete_ok(self, p: Seq<Dir>) -> bool {
        &&& self.valid_path(p)
        &&& (self.node_at_spec(p).left is None ==> self.node_at_spec(p).right is None)
        &&& (self.node_at_spec(p).left is None ==> p.len() > 0)
    }

    /// What removing the node at `p` by predecessor swap produces.  A leaf is
    /// detached from its parent: the slot is emptied, the parent gives back
    /// the reference the edge held, and the leaf ceases to exist.  Any other
    /// node exchanges payloads with its predecessor, the rightmost node of
    /// its left subtree, and the removal continues there; the exchanges walk
    /// the payload down until a leaf carries it and is detached.
    pub open spec fn delete_spec(self, p: Seq<Dir>) -> Node
        decreases self.node_at_spec(p).count(),
        when self.delete_ok(p)
        via Node::delete_spec_decreases
    {
        let n = self.node_at_spec(p);
        if n.left is None {
            let par = self.node_at_spec(p.drop_last());
            if p.last() == Dir::Left {
                self.replace_at(
                    p.drop_last(),
                    Node {
                        left: Option::None,
                        refs: (if par.refs > 0 {
                            (par.refs - 1) as usize
                        } else {
                            0
                        }),
                        ..par
                    },
                )
            } else {
                self.replace_at(
                    p.drop_last(),
                    Node {
                        right: Option::None,
                        refs: (if par.refs > 0 {
                            (par.refs - 1) as usize
                        } else {
                            0
                        }),
                        ..par
                    },
                )
            }
        } else {
            let q = p + seq![Dir::Left] + n.left.unwrap().rightmost_of();
            self.items_swapped(p, q).delete_spec(q)
        }
    }

    #[via_fn]
    proof fn delete_spec_decreases(self, p: Seq<Dir>) {
        let n = self.node_at_spec(p);
        if self.delete_ok(p) && n.left is Some {
            let lc = *n.left.unwrap();
            let step = seq![Dir::Left] + lc.rightmost_of();
            let q = p + step;
            assert(seq![Dir::Left].len() == 1);
            assert(seq![Dir::Left][0] == Dir::Left);
            assert(seq![Dir::Left].skip(1) =~= Seq::<Dir>::empty());
            assert(lc.valid_path(Seq::<Dir>::empty()));
            assert(lc.node_at_spec(Seq::<Dir>::empty()) == lc);
            assert(n.valid_path(seq![Dir::Left]));
            assert(n.node_at_spec(seq![Dir::Left]) == lc);
            lemma_rightmost(lc);
            lemma_valid_append(n, seq![Dir::Left], lc.rightmost_of());
            lemma_valid_append(self, p, step);
            lemma_count_at(n, step);
            assert(p + seq![Dir::Left] + lc.rightmost_of() =~= q);
            assert(self.node_at_spec(q).count() < self.node_at_spec(p).count());
            let t1 = self.item_replaced(q, n.item);
            lemma_item_replaced_at(self, q, n.item, q);
            lemma_item_replaced_at(self, q, n.item, p);
            lemma_item_replaced_at(t1, p, self.node_at_spec(q).item, q);
            assert(self.items_swapped(p, q).node_at_spec(q).count() == self.node_at_spec(
                q,
            ).count());
        }
    }

    /// Where the successor of the node at `p` stands: the leftmost node of
    /// the right subtree when there is one; for the root's right child
    /// without a right subtree, the leftmost node of its own subtree; else
    /// the ancestor reached by the last upward left edge; the maximum node
    /// answers with its own path.
    pub open spec fn succ_spec(self, p: Seq<Dir>) -> Seq<Dir> {
        let n = self.node_at_spec(p);
        if n.right is Some {
            p + seq![Dir::Right] + n.right.unwrap().leftmost_of()
        } else if p == seq![Dir::Right] {
            p + n.leftmost_of()
        } else if Node::last_index_of_dir(p, Dir::Left) >= 0 {
            p.take(Node::last_index_of_dir(p, Dir::Left))
        } else {
            p
        }
    }

    /// Where the predecessor of the node at `p` stands: the rightmost node
    /// of the left subtree when there is one, else the ancestor reached by
    /// the last upward right edge; the minimum node answers with its own
    /// path.
    pub open spec fn pred_spec(self, p: Seq<Dir>) -> Seq<Dir> {
        let n = self.node_at_spec(p);
        if n.left is Some {
            p + seq![Dir::Left] + n.left.unwrap().rightmost_of()
        } else if Node::last_index_of_dir(p, Dir::Right) >= 0 {
            p.take(Node::last_index_of_dir(p, Dir::Right))
        } else {
            p
        }
    }

    /// Attaches `child` as the left subtree; the slot must be free.  Both
    /// ends of the new edge count one more reference.  An occupied slot is
    /// never overwritten: re-parenting is not a thing this tree does.
    pub fn set_left(&mut self, child: Node)
        requires
            old(self).left is None,
            old(self).refs < usize::MAX,
            child.refs < usize::MAX,
        ensures
            final(self).item == old(self).item,
            final(self).right == old(self).right,
            final(self).refs == old(self).refs + 1,
            final(self).left is Some,
            *final(self).left.unwrap() == (Node { refs: (child.refs + 1) as usize, ..child }),
    {
        if self.left.is_none() {
            let mut c = child;
            c.refs = c.refs + 1;
            self.left = Option::Some(Box::new(c));
            self.refs = self.refs + 1;
        }
    }

    /// Attaches `child` as the right subtree; the slot must be free.  Both
    /// ends of the new edge count one more reference.  An occupied slot is
    /// never overwritten: re-parenting is not a thing this tree does.
    pub fn set_right(&mut self, child: Node)
        requires
            old(self).right is None,
            old(self).refs < usize::MAX,
            child.refs < usize::MAX,
        ensures
            final(self).item == old(self).item,
            final(self).left == old(self).left,
            final(self).refs == old(self).refs + 1,
            final(self).right is Some,
            *final(self).right.unwrap() == (Node { refs: (child.refs + 1) as usize, ..child }),
    {
        if self.right.is_none() {
            let mut c = child;
            c.refs = c.refs + 1;
            self.right = Option::Some(Box::new(c));
            self.refs = self.refs + 1;
        }
    }

    /// Attaches `child` on the left only when the slot is free; an occupied
    /// slot rejects the link, hands `child` back and leaves the tree
    /// untouched.
    pub fn try_set_left(&mut self, child: Node) -> (r: Option<Node>)
        requires
            old(self).refs < usize::MAX,
            child.refs < usize::MAX,
        ensures
            old(self).left is None ==> r is None && final(self).item == old(self).item && final(self).right == old(self).right && final(self).refs == old(self).refs + 1 && final(self).left is Some && *final(self).left.unwrap() == (Node {
                refs: (child.refs + 1) as usize,
                ..child
            }),
            old(self).left is Some ==> r == Some(child) && *final(self) == *old(self),
    {
        if self.left.is_none() {
            self.set_left(child);
            Option::None
        } else {
            Option::Some(child)
        }
    }

    /// Attaches `child` on the right only when the slot is free; an occupied
    /// slot rejects the link, hands `child` back and leaves the tree
    /// untouched.
    pub fn try_set_right(&mut self, child: Node) -> (r: Option<Node>)
        requires
            old(self).refs < usize::MAX,
            child.refs < usize::MAX,
        ensures
            old(self).right is None ==> r is None && final(self).item == old(self).item && final(self).left == old(self).left && final(self).refs == old(self).refs + 1 && final(self).right is Some && *final(self).right.unwrap() == (Node {
                refs: (child.refs + 1) as usize,
                ..child
            }),
            old(self).right is Some ==> r == Some(child) && *final(self) == *old(self),
    {
        if self.right.is_none() {
            self.set_right(child);
            Option::None
        } else {
            Option::Some(child)
        }
    }

    /// Drops the left subtree, giving back the reference the link held; with
    /// no left child this does nothing.
    pub fn delete_left(&mut self)
        ensures
            old(self).left is None ==> *final(self) == *old(self),
            old(self).left is Some ==> final(self).left is None && final(self).item == old(self).item && final(self).right == old(self).right && final(self).refs == (
            if old(self).refs > 0 {
                old(self).refs - 1
            } else {
                0int
            }),
    {
        if self.left.is_some() {
            self.left = Option::None;
            if self.refs > 0 {
                self.refs = self.refs - 1;
            }
        }
    }

    /// Drops the right subtree, giving back the reference the link held;
    /// with no right child this does nothing.
    pub fn delete_right(&mut self)
        ensures
            old(self).right is None ==> *final(self) == *old(self),
            old(self).right is Some ==> final(self).right is None && final(self).item == old(self).item && final(self).left == old(self).left && final(self).refs == (
            if old(self).refs > 0 {
                old(self).refs - 1
            } else {
                0int
            }),
    {
        if self.right.is_some() {
            self.right = Option::None;
            if self.refs > 0 {
                self.refs = self.refs - 1;
            }
        }
    }

    /// Releases the node: with references outstanding only one reference is
    /// given back; at zero references the node is reset to nil.
    pub fn dealloc(&mut self)
        ensures
            old(self).refs > 0 ==> *final(self) == (Node {
                refs: (old(self).refs - 1) as usize,
                ..*old(self)
            }),
            old(self).refs == 0 ==> final(self).item is None && final(self).left is None && final(self).right is None && final(self).refs == 0,
    {
        if self.refs > 0 {
            self.refs = self.refs - 1;
        } else {
            self.item = Option::None;
            self.left = Option::None;
            self.right = Option::None;
        }
    }

    /// Detaches and returns the subtree a non-root path names.  The freed
    /// parent slot and the detached root each give back the reference their
    /// edge held.
    pub fn disconnect(&mut self, path: &Vec<Dir>) -> (r: Node)
        requires
            old(self).valid_path(path@),
            path@.len() > 0,
        ensures
            ({
                let par = old(self).node_at_spec(path@.drop_last());
                let d = path@.last();
                &&& (d == Dir::Left ==> r == (Node {
                    refs: (if par.left.unwrap().refs > 0 {
                        (par.left.unwrap().refs - 1) as usize
                    } else {
                        0
                    }),
                    ..*par.left.unwrap()
                }) && *final(self) == old(self).replace_at(
                    path@.drop_last(),
                    Node {
                        left: Option::None,
                        refs: (if par.refs > 0 {
                            (par.refs - 1) as usize
                        } else {
                            0
                        }),
                        ..par
                    },
                ))
                &&& (d == Dir::Right ==> r == (Node {
                    refs: (if par.right.unwrap().refs > 0 {
                        (par.right.unwrap().refs - 1) as usize
                    } else {
                        0
                    }),
                    ..*par.right.unwrap()
                }) && *final(self) == old(self).replace_at(
                    path@.drop_last(),
                    Node {
                        right: Option::None,
                        refs: (if par.refs > 0 {
                            (par.refs - 1) as usize
                        } else {
                            0
                        }),
                        ..par
                    },
                ))
            }),
    {
        proof {
            lemma_valid_take(*old(self), path@, path@.len() - 1);
            assert(path@.take(path@.len() - 1) =~= path@.drop_last());
            lemma_node_at_unsnoc(*old(self), path@);
        }
        let pre = path_prefix(path, path.len() - 1);
        let last = path[path.len() - 1];
        let par = self.node_at_mut(&pre);
        match last {
            Dir::Left => {
                match par.left.take() {
                    Option::Some(b) => {
                        let mut sub = *b;
                        if par.refs > 0 {
                            par.refs = par.refs - 1;
                        }
                        if sub.refs > 0 {
                            sub.refs = sub.refs - 1;
                        }
                        sub
                    },
                    Option::None => unreached(),
                }
            },
            Dir::Right => {
                match par.right.take() {
                    Option::Some(b) => {
                        let mut sub = *b;
                        if par.refs > 0 {
                            par.refs = par.refs - 1;
                        }
                        if sub.refs > 0 {
                            sub.refs = sub.refs - 1;
                        }
                        sub
                    },
                    Option::None => unreached(),
                }
            },
        }
    }


    /// An aliasing pointer handle standing for this node: it carries a copy
    /// of the node and the node's reference count.
    pub fn ptr(&self) -> (r: crate::unique_pointer::UniquePointer<Node>)
        ensures
            r.data is Some,
            r.data.unwrap() == *self,
            r.refs.spec_read() == self.refs,
            r.is_copy,
            r.well_formed(),
    {
        crate::unique_pointer::UniquePointer::copy_from_ref(self, self.refs, 1)
    }

    /// The path (relative to this node) of the leftmost descendant.
    pub fn leftmost_vec(&self) -> (r: Vec<Dir>)
        ensures
            r@ == self.leftmost_of(),
        decreases *self,
    {
        match &self.left {
            Option::Some(l) => {
                let mut r: Vec<Dir> = Vec::new();
                r.push(Dir::Left);
                let mut rest = (&**l).leftmost_vec();
                r.append(&mut rest);
                proof {
                    assert(r@ =~= seq![Dir::Left] + l.leftmost_of());
                }
                r
            },
            Option::None => {
                let r: Vec<Dir> = Vec::new();
                proof {
                    assert(r@ =~= self.leftmost_of());
                }
                r
            },
        }
    }

    /// The path (relative to this node) of the rightmost descendant.
    pub fn rightmost_vec(&self) -> (r: Vec<Dir>)
        ensures
            r@ == self.rightmost_of(),
        decreases *self,
    {
        match &self.right {
            Option::Some(n) => {
                let mut r: Vec<Dir> = Vec::new();
                r.push(Dir::Right);
                let mut rest = (&**n).rightmost_vec();
                r.append(&mut rest);
                proof {
                    assert(r@ =~= seq![Dir::Right] + n.rightmost_of());
                }
                r
            },
            Option::None => {
                let r: Vec<Dir> = Vec::new();
                proof {
                    assert(r@ =~= self.rightmost_of());
                }
                r
            },
        }
    }

    /// The minimum node of this subtree: its leftmost descendant.
    pub fn subtree_first(&self) -> (r: &Node)
        ensures
            *r == self.node_at_spec(self.leftmost_of()),
            r.left is None,
        decreases *self,
    {
        match &self.left {
            Option::Some(l) => {
                proof {
                    assert(self.leftmost_of()[0] == Dir::Left);
                    assert(self.leftmost_of().skip(1) =~= l.leftmost_of());
                }
                (&**l).subtree_first()
            },
            Option::None => {
                proof {
                    assert(self.leftmost_of() =~= Seq::<Dir>::empty());
                }
                self
            },
        }
    }

    /// The path of the next node in ascending in-order: `succ_spec` made
    /// executable.
    pub fn successor(&self, path: &Vec<Dir>) -> (r: Vec<Dir>)
        requires
            self.valid_path(path@),
        ensures
            r@ == self.succ_spec(path@),
    {
        let n = self.node_at(path);
        match &n.right {
            Option::Some(rsub) => {
                let mut r = path_clone(path);
                r.push(Dir::Right);
                let mut rest = (&**rsub).leftmost_vec();
                r.append(&mut rest);
                proof {
                    assert(r@ =~= path@ + seq![Dir::Right] + rsub.leftmost_of());
                }
                return r;
            },
            Option::None => {},
        }
        if path.len() == 1 {
            let d = path[0];
            if d == Dir::Right {
                proof {
                    assert(path@ =~= seq![Dir::Right]);
                }
                let mut r = path_clone(path);
                let mut rest = n.leftmost_vec();
                r.append(&mut rest);
                return r;
            }
        }
        proof {
            assert(path@.take(path@.len() as int) =~= path@);
            if path@ == seq![Dir::Right] {
                assert(path@.len() == 1 && path@[0] == Dir::Right);
            }
        }
        let mut i: usize = path.len();
        while i > 0
            invariant
                i <= path@.len(),
                self.valid_path(path@),
                self.node_at_spec(path@).right is None,
                !(path@ == seq![Dir::Right]),
                Node::last_index_of_dir(path@, Dir::Left) == Node::last_index_of_dir(
                    path@.take(i as int),
                    Dir::Left,
                ),
            decreases i,
        {
            proof {
                assert(path@.take(i as int).last() == path@[i - 1]);
                assert(path@.take(i as int).drop_last() =~= path@.take(i - 1));
            }
            let d = path[i - 1];
            if d == Dir::Left {
                proof {
                    assert(Node::last_index_of_dir(path@.take(i as int), Dir::Left) == i - 1);
                }
                return path_prefix(path, i - 1);
            }
            i = i - 1;
        }
        proof {
            assert(path@.take(0) =~= Seq::<Dir>::empty());
        }
        path_clone(path)
    }

    /// The path of the previous node in descending in-order: `pred_spec`
    /// made executable.
    pub fn predecessor(&self, path: &Vec<Dir>) -> (r: Vec<Dir>)
        requires
            self.valid_path(path@),
        ensures
            r@ == self.pred_spec(path@),
    {
        let n = self.node_at(path);
        match &n.left {
            Option::Some(lsub) => {
                let mut r = path_clone(path);
                r.push(Dir::Left);
                let mut rest = (&**lsub).rightmost_vec();
                r.append(&mut rest);
                proof {
                    assert(r@ =~= path@ + seq![Dir::Left] + lsub.rightmost_of());
                }
                return r;
            },
            Option::None => {},
        }
        proof {
            assert(path@.take(path@.len() as int) =~= path@);
        }
        let mut i: usize = path.len();
        while i > 0
            invariant
                i <= path@.len(),
                self.valid_path(path@),
                self.node_at_spec(path@).left is None,
                Node::last_index_of_dir(path@, Dir::Right) == Node::last_index_of_dir(
                    path@.take(i as int),
                    Dir::Right,
                ),
            decreases i,
        {
            proof {
                assert(path@.take(i as int).last() == path@[i - 1]);
                assert(path@.take(i as int).drop_last() =~= path@.take(i - 1));
            }
            let d = path[i - 1];
            if d == Dir::Right {
                proof {
                    assert(Node::last_index_of_dir(path@.take(i as int), Dir::Right) == i - 1);
                }
                return path_prefix(path, i - 1);
            }
            i = i - 1;
        }
        proof {
            assert(path@.take(0) =~= Seq::<Dir>::empty());
        }
        path_clone(path)
    }

    /// Exchanges the payloads of the nodes at `a` and `b`; the tree's shape,
    /// reference counts and every other payload stay as they were.
    pub fn swap_item(&mut self, a: &Vec<Dir>, b: &Vec<Dir>)
        requires
            old(self).valid_path(a@),
            old(self).valid_path(b@),
        ensures
            *final(self) == old(self).items_swapped(a@, b@),
            final(self).iv() == old(self).iv().update(
                old(self).pos_of(b@),
                old(self).node_at_spec(a@).payload(),
            ).update(old(self).pos_of(a@), old(self).node_at_spec(b@).payload()),
            final(self).count() == old(self).count(),
            forall|q: Seq<Dir>|
                old(self).valid_path(q) ==> #[trigger] final(self).valid_path(q) && final(self).pos_of(q) == old(self).pos_of(q) && (final(self).node_at_spec(q).left is Some
                    <==> old(self).node_at_spec(q).left is Some) && (final(self).node_at_spec(
                    q,
                ).right is Some <==> old(self).node_at_spec(q).right is Some) && final(self).node_at_spec(q).count() == old(self).node_at_spec(q).count(),
            final(self).node_at_spec(a@).item == old(self).node_at_spec(b@).item,
            final(self).node_at_spec(b@).item == (if a@ == b@ {
                old(self).node_at_spec(b@).item
            } else {
                old(self).node_at_spec(a@).item
            }),
            forall|q: Seq<Dir>| #[trigger] final(self).valid_path(q) ==> old(self).valid_path(q),
    {
        let ghost t0 = *old(self);
        let va = {
            let n = self.node_at(a);
            n.value()
        };
        let vb = {
            let nb = self.node_at_mut(b);
            let vb = nb.item.take();
            nb.item = va;
            vb
        };
        let ghost t1 = *self;
        proof {
            assert(t1 == t0.item_replaced(b@, t0.node_at_spec(a@).item));
            lemma_item_replaced_at(t0, b@, t0.node_at_spec(a@).item, a@);
            lemma_item_replaced_at(t0, b@, t0.node_at_spec(a@).item, b@);
            lemma_item_replaced_iv(t0, b@, t0.node_at_spec(a@).item);
            lemma_iv_len(t0);
            lemma_pos_bounds(t0, a@);
            lemma_pos_bounds(t0, b@);
        }
        {
            let na = self.node_at_mut(a);
            na.item = vb;
        }
        proof {
            assert(*self == t1.item_replaced(a@, t0.node_at_spec(b@).item));
            lemma_item_replaced_iv(t1, a@, t0.node_at_spec(b@).item);
            lemma_item_replaced_at(t1, a@, t0.node_at_spec(b@).item, a@);
            lemma_item_replaced_at(t1, a@, t0.node_at_spec(b@).item, b@);
            assert forall|q: Seq<Dir>| t0.valid_path(q) implies #[trigger] self.valid_path(q)
                && self.pos_of(q) == t0.pos_of(q) && (self.node_at_spec(q).left is Some
                <==> t0.node_at_spec(q).left is Some) && (self.node_at_spec(q).right is Some
                <==> t0.node_at_spec(q).right is Some) && self.node_at_spec(q).count()
                == t0.node_at_spec(q).count() by {
                lemma_item_replaced_at(t0, b@, t0.node_at_spec(a@).item, q);
                lemma_item_replaced_at(t1, a@, t0.node_at_spec(b@).item, q);
            }
            lemma_item_replaced_count(t0, b@, t0.node_at_spec(a@).item);
            lemma_item_replaced_count(t1, a@, t0.node_at_spec(b@).item);
            lemma_item_replaced_involution(t1, a@, t0.node_at_spec(b@).item);
            lemma_item_replaced_involution(t0, b@, t0.node_at_spec(a@).item);
            assert forall|q: Seq<Dir>| #[trigger] self.valid_path(q) implies t0.valid_path(
                q,
            ) by {
                lemma_item_replaced_at(*self, a@, t1.node_at_spec(a@).item, q);
                assert(t1.valid_path(q));
                lemma_item_replaced_at(t1, b@, t0.node_at_spec(b@).item, q);
            }
        }
    }

    /// Where the in-order segment of the subtree at `p` begins within the
    /// whole tree's in-order sequence.
    pub open spec fn seg_start(self, p: Seq<Dir>) -> int {
        self.pos_of(p) - Node::count_opt(self.node_at_spec(p).left)
    }

    /// Inserts `new` directly after the node at `path` in in-order: as its
    /// right child when that slot is free, else as the left child of its
    /// successor (the leftmost node of its right subtree).  Either way the
    /// subtree behind `new` enters the in-order sequence right after the
    /// node's own entry; everything else keeps its place.
    pub fn subtree_insert_after(&mut self, path: &Vec<Dir>, new: Node)
        requires
            old(self).valid_path(path@),
            new.refs < usize::MAX,
            old(self).node_at_spec(path@).right is None ==> old(self).node_at_spec(path@).refs
                < usize::MAX,
            old(self).node_at_spec(path@).right is Some ==> old(self).node_at_spec(
                path@ + seq![Dir::Right] + old(self).node_at_spec(
                    path@,
                ).right.unwrap().leftmost_of(),
            ).refs < usize::MAX,
        ensures
            old(self).node_at_spec(path@).right is None ==> *final(self) == old(self).replace_at(
                path@,
                (Node {
                    right: Option::Some(Box::new(Node { refs: (new.refs + 1) as usize, ..new })),
                    refs: (old(self).node_at_spec(path@).refs + 1) as usize,
                    ..old(self).node_at_spec(path@)
                }),
            ),
            old(self).node_at_spec(path@).right is Some ==> *final(self) == old(self).replace_at(
                path@ + seq![Dir::Right] + old(self).node_at_spec(
                    path@,
                ).right.unwrap().leftmost_of(),
                (Node {
                    left: Option::Some(Box::new(Node { refs: (new.refs + 1) as usize, ..new })),
                    refs: (old(self).node_at_spec(
                        path@ + seq![Dir::Right] + old(self).node_at_spec(
                            path@,
                        ).right.unwrap().leftmost_of(),
                    ).refs + 1) as usize,
                    ..old(self).node_at_spec(
                        path@ + seq![Dir::Right] + old(self).node_at_spec(
                            path@,
                        ).right.unwrap().leftmost_of(),
                    )
                }),
            ),
            final(self).iv() == old(self).iv().take(old(self).pos_of(path@) + 1) + new.iv()
                + old(self).iv().skip(old(self).pos_of(path@) + 1),
            final(self).count() == old(self).count() + new.count(),
    {
        let has_right = {
            let n = self.node_at(path);
            n.right.is_some()
        };
        if !has_right {
            let ghost t0 = *old(self);
            let ghost nd = t0.node_at_spec(path@);
            let ghost pos = t0.pos_of(path@);
            let n = self.node_at_mut(path);
            n.set_right(new);
            proof {
                let m = *self.node_at_spec(path@).right.unwrap();
                lemma_node_at_replace(t0, path@, *final(n));
                lemma_replace_iv(t0, path@, *final(n));
                lemma_iv_len(t0);
                lemma_iv_len(nd);
                lemma_iv_len(new);
                lemma_iv_len(m);
                lemma_pos_bounds(t0, path@);
                match nd.left {
                    Option::Some(l) => lemma_iv_len(*l),
                    Option::None => {},
                }
                assert(m.item == new.item && m.left == new.left && m.right == new.right);
                assert(m.iv() == new.iv());
                assert(m.count() == new.count());
                assert(final(n).iv() =~= Node::iv_opt(nd.left) + seq![nd.payload()] + new.iv());
                assert(t0.seg_start(path@) + nd.count() == pos + 1);
                assert(self.iv() =~= t0.iv().take(pos + 1) + new.iv() + t0.iv().skip(pos + 1));
            }
        } else {
            let mut q = path_clone(path);
            q.push(Dir::Right);
            let mut rest = {
                let n = self.node_at(path);
                match &n.right {
                    Option::Some(rc) => (&**rc).leftmost_vec(),
                    Option::None => unreached(),
                }
            };
            q.append(&mut rest);
            proof {
                let t = *self;
                let n = t.node_at_spec(path@);
                let rc = *n.right.unwrap();
                assert(seq![Dir::Right].len() == 1);
                assert(seq![Dir::Right][0] == Dir::Right);
                assert(seq![Dir::Right].skip(1) =~= Seq::<Dir>::empty());
                assert(rc.valid_path(Seq::<Dir>::empty()));
                assert(rc.node_at_spec(Seq::<Dir>::empty()) == rc);
                assert(n.valid_path(seq![Dir::Right]));
                assert(n.node_at_spec(seq![Dir::Right]) == rc);
                lemma_valid_append(t, path@, seq![Dir::Right]);
                lemma_leftmost(rc);
                lemma_valid_append(t, path@ + seq![Dir::Right], rc.leftmost_of());
                assert(q@ =~= path@ + seq![Dir::Right] + rc.leftmost_of());
            }
            let ghost t0 = *old(self);
            let ghost nd = t0.node_at_spec(path@);
            let ghost pos = t0.pos_of(path@);
            proof {
                let rc = *nd.right.unwrap();
                let step = seq![Dir::Right] + rc.leftmost_of();
                lemma_leftmost_pos(rc);
                assert(step[0] == Dir::Right);
                assert(step.skip(1) =~= rc.leftmost_of());
                assert(step.len() > 0);
                assert(nd.pos_of(step) == Node::count_opt(nd.left) + 1);
                lemma_pos_append(t0, path@, step);
                assert(q@ =~= path@ + step);
                assert(t0.pos_of(q@) == pos + 1);
            }
            let m = self.node_at_mut(&q);
            m.set_left(new);
            proof {
                let nq = t0.node_at_spec(q@);
                let mm = *self.node_at_spec(q@).left.unwrap();
                lemma_node_at_replace(t0, q@, *final(m));
                lemma_replace_iv(t0, q@, *final(m));
                lemma_iv_len(t0);
                lemma_iv_len(nq);
                lemma_iv_len(new);
                lemma_iv_len(mm);
                lemma_pos_bounds(t0, q@);
                assert(mm.item == new.item && mm.left == new.left && mm.right == new.right);
                assert(mm.iv() == new.iv());
                assert(mm.count() == new.count());
                assert(nq.left is None);
                assert(nq.iv() =~= seq![nq.payload()] + Node::iv_opt(nq.right));
                assert(final(m).iv() =~= new.iv() + seq![nq.payload()] + Node::iv_opt(nq.right));
                assert(t0.seg_start(q@) == pos + 1);
                assert(self.iv() =~= t0.iv().take(pos + 1) + new.iv() + t0.iv().skip(pos + 1));
            }
        }
    }

    /// The left child, for mutation.
    pub fn left_mut(&mut self) -> (r: Option<&mut Node>)
        ensures
            r is Some <==> old(self).left is Some,
            r matches Some(n) ==> *n == *old(self).left.unwrap() && final(self).left is Some
                && *final(self).left.unwrap() == *final(n) && final(self).item == old(self).item
                && final(self).right == old(self).right && final(self).refs == old(self).refs,
            r is None ==> *final(self) == *old(self),
    {
        match &mut self.left {
            Option::Some(l) => Option::Some(&mut **l),
            Option::None => Option::None,
        }
    }

    /// The right child, for mutation.
    pub fn right_mut(&mut self) -> (r: Option<&mut Node>)
        ensures
            r is Some <==> old(self).right is Some,
            r matches Some(n) ==> *n == *old(self).right.unwrap() && final(self).right is Some
                && *final(self).right.unwrap() == *final(n) && final(self).item == old(self).item
                && final(self).left == old(self).left && final(self).refs == old(self).refs,
            r is None ==> *final(self) == *old(self),
    {
        match &mut self.right {
            Option::Some(l) => Option::Some(&mut **l),
            Option::None => Option::None,
        }
    }

    /// The parent of the node `path` names, for mutation; `None` at the root.
    pub fn parent_mut(&mut self, path: &Vec<Dir>) -> (r: Option<&mut Node>)
        requires
            old(self).valid_path(path@),
        ensures
            r is Some <==> path@.len() > 0,
            r matches Some(n) ==> *n == old(self).node_at_spec(path@.drop_last()) && *final(self)
                == old(self).replace_at(path@.drop_last(), *final(n)),
            r is None ==> *final(self) == *old(self),
    {
        if path.len() == 0 {
            Option::None
        } else {
            proof {
                lemma_valid_take(*old(self), path@, path@.len() - 1);
                assert(path@.take(path@.len() - 1) =~= path@.drop_last());
            }
            let pre = path_prefix(path, path.len() - 1);
            Option::Some(self.node_at_mut(&pre))
        }
    }

    /// The minimum node of this subtree, for mutation.
    pub fn subtree_first_mut(&mut self) -> (r: &mut Node)
        ensures
            *r == old(self).node_at_spec(old(self).leftmost_of()),
            *final(self) == old(self).replace_at(old(self).leftmost_of(), *final(r)),
        decreases *old(self),
    {
        proof {
            lemma_leftmost(*old(self));
        }
        if self.left.is_none() {
            proof {
                assert(old(self).leftmost_of() =~= Seq::<Dir>::empty());
            }
            return self;
        }
        match &mut self.left {
            Option::Some(l) => {
                proof {
                    assert(old(self).leftmost_of()[0] == Dir::Left);
                    assert(old(self).leftmost_of().skip(1)
                        =~= old(self).left.unwrap().leftmost_of());
                }
                (&mut **l).subtree_first_mut()
            },
            Option::None => unreached(),
        }
    }

    /// The node at the successor's path, for mutation.
    pub fn successor_mut(&mut self, path: &Vec<Dir>) -> (r: &mut Node)
        requires
            old(self).valid_path(path@),
        ensures
            *r == old(self).node_at_spec(old(self).succ_spec(path@)),
            *final(self) == old(self).replace_at(old(self).succ_spec(path@), *final(r)),
    {
        proof {
            lemma_succ_valid(*old(self), path@);
        }
        let q = self.successor(path);
        self.node_at_mut(&q)
    }

    /// The node at the predecessor's path, for mutation.
    pub fn predecessor_mut(&mut self, path: &Vec<Dir>) -> (r: &mut Node)
        requires
            old(self).valid_path(path@),
        ensures
            *r == old(self).node_at_spec(old(self).pred_spec(path@)),
            *final(self) == old(self).replace_at(old(self).pred_spec(path@), *final(r)),
    {
        proof {
            lemma_pred_valid(*old(self), path@);
        }
        let q = self.predecessor(path);
        self.node_at_mut(&q)
    }

    /// Copies the payloads in in-order: left subtree, this node (the nil
    /// value standing in for an absent payload), right subtree.
    pub fn in_order_values(&self) -> (r: Vec<Value>)
        ensures
            r@ == self.iv(),
        decreases *self,
    {
        let mut r: Vec<Value> = Vec::new();
        match &self.left {
            Option::Some(l) => {
                let mut lv = (&**l).in_order_values();
                r.append(&mut lv);
            },
            Option::None => {},
        }
        r.push(self.item());
        match &self.right {
            Option::Some(n) => {
                let mut rv = (&**n).in_order_values();
                r.append(&mut rv);
            },
            Option::None => {},
        }
        proof {
            assert(r@ =~= self.iv());
        }
        r
    }
}

/// A prefix of a valid path is valid.
pub proof fn lemma_valid_take(t: Node, p: Seq<Dir>, n: int)
    requires
        0 <= n <= p.len(),
        t.valid_path(p),
    ensures
        t.valid_path(p.take(n)),
    decreases p.len(),
{
    if n > 0 {
        assert(p.take(n)[0] == p[0]);
        if p[0] == Dir::Left {
            lemma_valid_take(*t.left.unwrap(), p.skip(1), n - 1);
            assert(p.take(n).skip(1) =~= p.skip(1).take(n - 1));
        } else {
            lemma_valid_take(*t.right.unwrap(), p.skip(1), n - 1);
            assert(p.take(n).skip(1) =~= p.skip(1).take(n - 1));
        }
    }
}
/// The first `n` steps of `path`, as a fresh path.
pub fn path_prefix(path: &Vec<Dir>, n: usize) -> (r: Vec<Dir>)
    requires
        n <= path@.len(),
    ensures
        r@ == path@.take(n as int),
{
    let mut r: Vec<Dir> = Vec::new();
    let mut i: usize = 0;
    while i < n
        invariant
            i <= n,
            n <= path@.len(),
            r@ == path@.take(i as int),
        decreases n - i,
    {
        r.push(path[i]);
        i = i + 1;
        proof {
            assert(path@.take(i as int) =~= path@.take(i - 1).push(path@[i - 1]));
        }
    }
    r
}

/// A whole path, as a fresh copy.
pub fn path_clone(path: &Vec<Dir>) -> (r: Vec<Dir>)
    ensures
        r@ == path@,
{
    proof {
        assert(path@.take(path@.len() as int) =~= path@);
    }
    path_prefix(path, path.len())
}

/// A non-root path names the child of its parent on the side of its last
/// step.
pub proof fn lemma_node_at_unsnoc(t: Node, p: Seq<Dir>)
    requires
        p.len() > 0,
        t.valid_path(p),
    ensures
        t.valid_path(p.drop_last()),
        p.last() == Dir::Left ==> t.node_at_spec(p.drop_last()).left is Some && t.node_at_spec(p)
            == *t.node_at_spec(p.drop_last()).left.unwrap(),
        p.last() == Dir::Right ==> t.node_at_spec(p.drop_last()).right is Some && t.node_at_spec(p)
            == *t.node_at_spec(p.drop_last()).right.unwrap(),
    decreases p.len(),
{
    if p.len() == 1 {
        assert(p.drop_last() =~= Seq::<Dir>::empty());
        assert(p.skip(1) =~= Seq::<Dir>::empty());
        assert(p.last() == p[0]);
    } else {
        let rest = p.skip(1);
        if p[0] == Dir::Left {
            lemma_node_at_unsnoc(*t.left.unwrap(), rest);
            assert(rest.last() == p.last());
            assert(p.drop_last()[0] == p[0]);
            assert(p.drop_last().skip(1) =~= rest.drop_last());
        } else {
            lemma_node_at_unsnoc(*t.right.unwrap(), rest);
            assert(rest.last() == p.last());
            assert(p.drop_last()[0] == p[0]);
            assert(p.drop_last().skip(1) =~= rest.drop_last());
        }
    }
}

/// Paths compose: a valid path of the subtree at `p` extends `p`.
pub proof fn lemma_valid_append(t: Node, p: Seq<Dir>, s: Seq<Dir>)
    requires
        t.valid_path(p),
        t.node_at_spec(p).valid_path(s),
    ensures
        t.valid_path(p + s),
        t.node_at_spec(p + s) == t.node_at_spec(p).node_at_spec(s),
    decreases p.len(),
{
    if p.len() == 0 {
        assert(p + s =~= s);
    } else {
        assert((p + s)[0] == p[0]);
        assert((p + s).skip(1) =~= p.skip(1) + s);
        if p[0] == Dir::Left {
            lemma_valid_append(*t.left.unwrap(), p.skip(1), s);
        } else {
            lemma_valid_append(*t.right.unwrap(), p.skip(1), s);
        }
    }
}

/// The leftmost path is valid and ends at a node with no left child.
pub proof fn lemma_leftmost(t: Node)
    ensures
        t.valid_path(t.leftmost_of()),
        t.node_at_spec(t.leftmost_of()).left is None,
    decreases t,
{
    match t.left {
        Option::Some(l) => {
            lemma_leftmost(*l);
            assert(t.leftmost_of()[0] == Dir::Left);
            assert(t.leftmost_of().skip(1) =~= l.leftmost_of());
        },
        Option::None => {
            assert(t.leftmost_of() =~= Seq::<Dir>::empty());
        },
    }
}

/// The rightmost path is valid and ends at a node with no right child.
pub proof fn lemma_rightmost(t: Node)
    ensures
        t.valid_path(t.rightmost_of()),
        t.node_at_spec(t.rightmost_of()).right is None,
    decreases t,
{
    match t.right {
        Option::Some(r) => {
            lemma_rightmost(*r);
            assert(t.rightmost_of()[0] == Dir::Right);
            assert(t.rightmost_of().skip(1) =~= r.rightmost_of());
        },
        Option::None => {
            assert(t.rightmost_of() =~= Seq::<Dir>::empty());
        },
    }
}

/// Replacing a payload keeps the node count, on both sides of each link.
pub proof fn lemma_item_replaced_count(t: Node, p: Seq<Dir>, it: Option<Value>)
    requires
        t.valid_path(p),
    ensures
        (t.item_replaced(p, it).left is Some <==> t.left is Some),
        (t.item_replaced(p, it).right is Some <==> t.right is Some),
        Node::count_opt(t.item_replaced(p, it).left) == Node::count_opt(t.left),
        Node::count_opt(t.item_replaced(p, it).right) == Node::count_opt(t.right),
        t.item_replaced(p, it).count() == t.count(),
    decreases p.len(),
{
    if p.len() == 0 {
    } else if p[0] == Dir::Left {
        let l = *t.left.unwrap();
        lemma_item_replaced_count(l, p.skip(1), it);
        assert(t.item_replaced(p, it).left == Option::Some(
            Box::new(l.item_replaced(p.skip(1), it)),
        ));
    } else {
        let r = *t.right.unwrap();
        lemma_item_replaced_count(r, p.skip(1), it);
        assert(t.item_replaced(p, it).right == Option::Some(
            Box::new(r.item_replaced(p.skip(1), it)),
        ));
    }
}

/// Replacing the payload at `p` changes nothing observable at any other
/// valid path: validity, shape, counts and positions are kept, and payloads
/// move only at `p` itself.
pub proof fn lemma_item_replaced_at(t: Node, p: Seq<Dir>, it: Option<Value>, q: Seq<Dir>)
    requires
        t.valid_path(p),
        t.valid_path(q),
    ensures
        t.item_replaced(p, it).valid_path(q),
        t.item_replaced(p, it).node_at_spec(q).item == (if q == p {
            it
        } else {
            t.node_at_spec(q).item
        }),
        (t.item_replaced(p, it).node_at_spec(q).left is Some <==> t.node_at_spec(q).left is Some),
        (t.item_replaced(p, it).node_at_spec(q).right is Some <==> t.node_at_spec(q).right
            is Some),
        t.item_replaced(p, it).node_at_spec(q).count() == t.node_at_spec(q).count(),
        t.item_replaced(p, it).pos_of(q) == t.pos_of(q),
    decreases q.len(),
{
    let tr = t.item_replaced(p, it);
    lemma_item_replaced_count(t, p, it);
    if q.len() == 0 {
        if p.len() == 0 {
            assert(q =~= p);
        } else {
            assert(q != p);
        }
    } else {
        if p.len() == 0 {
            if q[0] == Dir::Left {
                assert(tr.left == t.left);
                assert(tr.node_at_spec(q) == t.node_at_spec(q));
                assert(tr.valid_path(q));
                assert(tr.pos_of(q) == t.pos_of(q));
            } else {
                assert(tr.right == t.right);
                assert(tr.node_at_spec(q) == t.node_at_spec(q));
                assert(tr.valid_path(q));
                assert(tr.pos_of(q) == t.pos_of(q));
            }
            assert(q != p);
        } else if p[0] == Dir::Left && q[0] == Dir::Left {
            let l = *t.left.unwrap();
            lemma_item_replaced_at(l, p.skip(1), it, q.skip(1));
            assert(tr.left == Option::Some(Box::new(l.item_replaced(p.skip(1), it))));
            if q.skip(1) == p.skip(1) {
                assert forall|i: int| 0 <= i < q.len() implies q[i] == p[i] by {
                    if i > 0 {
                        assert(q[i] == q.skip(1)[i - 1]);
                        assert(p[i] == p.skip(1)[i - 1]);
                    }
                }
                assert(q =~= p);
            } else {
                assert(q != p);
            }
        } else if p[0] == Dir::Right && q[0] == Dir::Right {
            let r = *t.right.unwrap();
            lemma_item_replaced_at(r, p.skip(1), it, q.skip(1));
            assert(tr.right == Option::Some(Box::new(r.item_replaced(p.skip(1), it))));
            if q.skip(1) == p.skip(1) {
                assert forall|i: int| 0 <= i < q.len() implies q[i] == p[i] by {
                    if i > 0 {
                        assert(q[i] == q.skip(1)[i - 1]);
                        assert(p[i] == p.skip(1)[i - 1]);
                    }
                }
                assert(q =~= p);
            } else {
                assert(q != p);
            }
        } else if q[0] == Dir::Left {
            assert(tr.left == t.left);
            assert(tr.node_at_spec(q) == t.node_at_spec(q));
            assert(tr.valid_path(q));
            assert(tr.pos_of(q) == t.pos_of(q));
            assert(q != p);
        } else {
            assert(tr.right == t.right);
            assert(tr.node_at_spec(q) == t.node_at_spec(q));
            assert(tr.valid_path(q));
            assert(tr.pos_of(q) == t.pos_of(q));
            assert(q != p);
        }
    }
}

/// The in-order sequence has exactly one entry per node.
pub proof fn lemma_iv_len(t: Node)
    ensures
        t.iv().len() == t.count(),
    decreases t,
{
    match t.left {
        Option::Some(l) => lemma_iv_len(*l),
        Option::None => {},
    }
    match t.right {
        Option::Some(r) => lemma_iv_len(*r),
        Option::None => {},
    }
}

/// A node's in-order position lies inside its tree's in-order sequence.
pub proof fn lemma_pos_bounds(t: Node, p: Seq<Dir>)
    requires
        t.valid_path(p),
    ensures
        0 <= t.pos_of(p) < t.count(),
    decreases p.len(),
{
    if p.len() == 0 {
    } else if p[0] == Dir::Left {
        lemma_pos_bounds(*t.left.unwrap(), p.skip(1));
    } else {
        lemma_pos_bounds(*t.right.unwrap(), p.skip(1));
    }
}

/// The in-order entry at a node's position is that node's payload.
pub proof fn lemma_iv_index(t: Node, p: Seq<Dir>)
    requires
        t.valid_path(p),
    ensures
        0 <= t.pos_of(p) < t.iv().len(),
        t.iv()[t.pos_of(p)] == t.node_at_spec(p).payload(),
    decreases p.len(),
{
    lemma_iv_len(t);
    lemma_pos_bounds(t, p);
    if p.len() == 0 {
        match t.left {
            Option::Some(l) => lemma_iv_len(*l),
            Option::None => {},
        }
    } else if p[0] == Dir::Left {
        let l = *t.left.unwrap();
        lemma_iv_index(l, p.skip(1));
        lemma_iv_len(l);
    } else {
        let r = *t.right.unwrap();
        lemma_iv_index(r, p.skip(1));
        match t.left {
            Option::Some(l) => lemma_iv_len(*l),
            Option::None => {},
        }
        lemma_iv_len(r);
    }
}

/// Replacing the payload at `p` updates exactly that node's entry of the
/// in-order sequence.
pub proof fn lemma_item_replaced_iv(t: Node, p: Seq<Dir>, it: Option<Value>)
    requires
        t.valid_path(p),
    ensures
        t.item_replaced(p, it).iv() == t.iv().update(
            t.pos_of(p),
            (Node { item: it, ..t.node_at_spec(p) }).payload(),
        ),
    decreases p.len(),
{
    let tr = t.item_replaced(p, it);
    let v = (Node { item: it, ..t.node_at_spec(p) }).payload();
    lemma_iv_len(t);
    lemma_pos_bounds(t, p);
    if p.len() == 0 {
        match t.left {
            Option::Some(l) => lemma_iv_len(*l),
            Option::None => {},
        }
        assert(tr.iv() =~= t.iv().update(t.pos_of(p), v));
    } else if p[0] == Dir::Left {
        let l = *t.left.unwrap();
        lemma_item_replaced_iv(l, p.skip(1), it);
        lemma_iv_len(l);
        lemma_pos_bounds(l, p.skip(1));
        assert(tr.left == Option::Some(Box::new(l.item_replaced(p.skip(1), it))));
        assert(tr.right == t.right);
        assert(tr.item == t.item);
        assert(tr.iv() =~= t.iv().update(t.pos_of(p), v));
    } else {
        let r = *t.right.unwrap();
        lemma_item_replaced_iv(r, p.skip(1), it);
        lemma_iv_len(r);
        lemma_pos_bounds(r, p.skip(1));
        match t.left {
            Option::Some(l) => lemma_iv_len(*l),
            Option::None => {},
        }
        assert(tr.right == Option::Some(Box::new(r.item_replaced(p.skip(1), it))));
        assert(tr.left == t.left);
        assert(tr.item == t.item);
        assert(tr.iv() =~= t.iv().update(t.pos_of(p), v));
    }
}

/// In-order positions compose along path concatenation.
pub proof fn lemma_pos_append(t: Node, p: Seq<Dir>, s: Seq<Dir>)
    requires
        t.valid_path(p),
        t.node_at_spec(p).valid_path(s),
    ensures
        t.pos_of(p + s) == t.pos_of(p) - Node::count_opt(t.node_at_spec(p).left)
            + t.node_at_spec(p).pos_of(s),
    decreases p.len(),
{
    lemma_valid_append(t, p, s);
    if p.len() == 0 {
        assert(p + s =~= s);
        if s.len() == 0 {
        } else if s[0] == Dir::Left {
            lemma_pos_of_left_below(t, s);
        } else {
        }
    } else {
        assert((p + s)[0] == p[0]);
        assert((p + s).skip(1) =~= p.skip(1) + s);
        if p[0] == Dir::Left {
            lemma_pos_append(*t.left.unwrap(), p.skip(1), s);
        } else {
            lemma_pos_append(*t.right.unwrap(), p.skip(1), s);
        }
    }
}

/// Within the left subtree, positions never reach the subtree root's own.
pub proof fn lemma_pos_of_left_below(t: Node, s: Seq<Dir>)
    requires
        t.valid_path(s),
        s.len() > 0,
        s[0] == Dir::Left,
    ensures
        t.pos_of(s) == t.left.unwrap().pos_of(s.skip(1)),
    decreases s.len(),
{
}

/// The rightmost node of a subtree sits at the last in-order position.
pub proof fn lemma_rightmost_pos(t: Node)
    ensures
        t.pos_of(t.rightmost_of()) == t.count() - 1,
        t.node_at_spec(t.rightmost_of()).right is None,
        t.valid_path(t.rightmost_of()),
    decreases t,
{
    lemma_rightmost(t);
    match t.right {
        Option::Some(r) => {
            lemma_rightmost_pos(*r);
            assert(t.rightmost_of()[0] == Dir::Right);
            assert(t.rightmost_of().skip(1) =~= r.rightmost_of());
        },
        Option::None => {
            assert(t.rightmost_of() =~= Seq::<Dir>::empty());
        },
    }
}

impl DeepClone for Node {
    fn deep_clone(&self) -> (r: Node)
        decreases *self,
    {
        let item = match &self.item {
            Option::Some(v) => Option::Some(v.deep_clone()),
            Option::None => Option::None,
        };
        let left = match &self.left {
            Option::Some(l) => Option::Some(Box::new((&**l).deep_clone())),
            Option::None => Option::None,
        };
        let right = match &self.right {
            Option::Some(n) => Option::Some(Box::new((&**n).deep_clone())),
            Option::None => Option::None,
        };
        Node { item, left, right, refs: self.refs }
    }
}

/// A subtree never holds more nodes than the tree around it.
pub proof fn lemma_count_at(t: Node, p: Seq<Dir>)
    requires
        t.valid_path(p),
    ensures
        t.node_at_spec(p).count() <= t.count(),
        p.len() > 0 ==> t.node_at_spec(p).count() < t.count(),
    decreases p.len(),
{
    if p.len() == 0 {
    } else if p[0] == Dir::Left {
        lemma_count_at(*t.left.unwrap(), p.skip(1));
    } else {
        lemma_count_at(*t.right.unwrap(), p.skip(1));
    }
}

/// The in-order sequence splits around any subtree's segment, and replacing
/// the subtree replaces exactly that segment.
#[verifier::rlimit(60)]
pub proof fn lemma_replace_iv(t: Node, p: Seq<Dir>, m: Node)
    requires
        t.valid_path(p),
    ensures
        0 <= t.seg_start(p),
        t.seg_start(p) + t.node_at_spec(p).count() <= t.count(),
        t.iv() == t.iv().take(t.seg_start(p)) + t.node_at_spec(p).iv() + t.iv().skip(
            t.seg_start(p) + t.node_at_spec(p).count(),
        ),
        t.replace_at(p, m).iv() == t.iv().take(t.seg_start(p)) + m.iv() + t.iv().skip(
            t.seg_start(p) + t.node_at_spec(p).count(),
        ),
        t.replace_at(p, m).count() == t.count() - t.node_at_spec(p).count() + m.count(),
    decreases p.len(),
{
    lemma_iv_len(t);
    lemma_iv_len(m);
    lemma_iv_len(t.node_at_spec(p));
    lemma_pos_bounds(t, p);
    if p.len() == 0 {
        assert(t.iv() =~= t.iv().take(t.seg_start(p)) + t.node_at_spec(p).iv() + t.iv().skip(
            t.seg_start(p) + t.node_at_spec(p).count(),
        ));
        assert(t.replace_at(p, m).iv() =~= t.iv().take(t.seg_start(p)) + m.iv() + t.iv().skip(
            t.seg_start(p) + t.node_at_spec(p).count(),
        ));
    } else if p[0] == Dir::Left {
        let l = *t.left.unwrap();
        lemma_replace_iv(l, p.skip(1), m);
        lemma_iv_len(l);
        assert(t.replace_at(p, m).left == Option::Some(Box::new(l.replace_at(p.skip(1), m))));
        assert(t.seg_start(p) == l.seg_start(p.skip(1)));
        assert(t.iv() =~= t.iv().take(t.seg_start(p)) + t.node_at_spec(p).iv() + t.iv().skip(
            t.seg_start(p) + t.node_at_spec(p).count(),
        ));
        assert(t.replace_at(p, m).iv() =~= t.iv().take(t.seg_start(p)) + m.iv() + t.iv().skip(
            t.seg_start(p) + t.node_at_spec(p).count(),
        ));
    } else {
        let r = *t.right.unwrap();
        lemma_replace_iv(r, p.skip(1), m);
        lemma_iv_len(r);
        match t.left {
            Option::Some(l) => lemma_iv_len(*l),
            Option::None => {},
        }
        assert(t.replace_at(p, m).right == Option::Some(Box::new(r.replace_at(p.skip(1), m))));
        assert(t.seg_start(p) == Node::count_opt(t.left) + 1 + r.seg_start(p.skip(1)));
        assert(t.iv() =~= t.iv().take(t.seg_start(p)) + t.node_at_spec(p).iv() + t.iv().skip(
            t.seg_start(p) + t.node_at_spec(p).count(),
        ));
        assert(t.replace_at(p, m).iv() =~= t.iv().take(t.seg_start(p)) + m.iv() + t.iv().skip(
            t.seg_start(p) + t.node_at_spec(p).count(),
        ));
    }
}

/// Removes the node at `path` by predecessor swap: its payload walks down to
/// a leaf, exchanging places with each predecessor in turn, and that leaf is
/// detached.  Exactly one entry leaves the in-order sequence: the one at the
/// removed node's position.  A node with no left child must be a leaf, and a
/// lone leaf (the whole tree) cannot be removed.
#[verifier::rlimit(80)]
pub fn subtree_delete(t: &mut Node, path: &Vec<Dir>)
    requires
        old(t).delete_ok(path@),
    ensures
        *final(t) == old(t).delete_spec(path@),
        final(t).iv() == old(t).iv().remove(old(t).pos_of(path@)),
        final(t).count() == old(t).count() - 1,
        forall|q: Seq<Dir>| #[trigger] final(t).valid_path(q) ==> old(t).valid_path(q),
    decreases old(t).node_at_spec(path@).count(),
{
    let ghost t0 = *old(t);
    let is_leaf = {
        let n = t.node_at(path);
        n.left.is_none() && n.right.is_none()
    };
    if is_leaf {
        proof {
            lemma_node_at_unsnoc(t0, path@);
            assert(path@.take(path@.len() - 1) =~= path@.drop_last());
        }
        let pre = path_prefix(path, path.len() - 1);
        let d = path[path.len() - 1];
        let ghost pp = path@.drop_last();
        let ghost par = t0.node_at_spec(pp);
        let ghost leaf = t0.node_at_spec(path@);
        {
            let pn = t.node_at_mut(&pre);
            match d {
                Dir::Left => {
                    pn.left = Option::None;
                },
                Dir::Right => {
                    pn.right = Option::None;
                },
            }
            if pn.refs > 0 {
                pn.refs = pn.refs - 1;
            }
        }
        proof {
            let m = if d == Dir::Left {
                Node { left: Option::None, refs: (if par.refs > 0 { (par.refs - 1) as usize } else { 0 }), ..par }
            } else {
                Node { right: Option::None, refs: (if par.refs > 0 { (par.refs - 1) as usize } else { 0 }), ..par }
            };
            assert(*t == t0.replace_at(pp, m));
            assert(*t == t0.delete_spec(path@));
            lemma_replace_iv(t0, pp, m);
            lemma_iv_len(t0);
            lemma_iv_len(par);
            lemma_iv_len(m);
            match par.left {
                Option::Some(l) => lemma_iv_len(*l),
                Option::None => {},
            }
            match par.right {
                Option::Some(r) => lemma_iv_len(*r),
                Option::None => {},
            }
            assert(path@.last() == d);
            assert(seq![d].len() == 1);
            assert(seq![d][0] == d);
            assert(seq![d].skip(1) =~= Seq::<Dir>::empty());
            assert(leaf.valid_path(Seq::<Dir>::empty()));
            assert(leaf.node_at_spec(Seq::<Dir>::empty()) == leaf);
            assert(par.valid_path(seq![d]));
            assert(pp + seq![d] =~= path@);
            assert(par.node_at_spec(seq![d]) == leaf);
            lemma_pos_append(t0, pp, seq![d]);
            assert(leaf.iv() =~= seq![leaf.payload()]);
            let s = t0.seg_start(pp);
            let cp = par.count() as int;
            assert(leaf.pos_of(Seq::<Dir>::empty()) == Node::count_opt(leaf.left) as int);
            assert(Node::count_opt(leaf.left) == 0);
            if d == Dir::Left {
                assert(par.pos_of(seq![d]) == 0);
                assert(t0.pos_of(path@) == s);
                assert(m.iv() =~= par.iv().skip(1));
            } else {
                assert(par.pos_of(seq![d]) == Node::count_opt(par.left) + 1);
                assert(t0.pos_of(path@) == s + cp - 1);
                assert(m.iv() =~= par.iv().drop_last());
            }
            assert(final(t).iv() =~= t0.iv().remove(t0.pos_of(path@)));
            assert forall|s2: Seq<Dir>| #[trigger] m.valid_path(s2) implies par.valid_path(
                s2,
            ) by {
                if s2.len() > 0 {
                    if s2[0] == Dir::Left {
                        assert(m.left == par.left || m.left is None);
                    } else {
                        assert(m.right == par.right || m.right is None);
                    }
                }
            }
            assert forall|q: Seq<Dir>| #[trigger] final(t).valid_path(q) implies t0.valid_path(
                q,
            ) by {
                lemma_replace_at_valid_subset(t0, pp, m, q);
            }
        }
    } else {
        let mut q = path_clone(path);
        q.push(Dir::Left);
        let mut rest = {
            let n = t.node_at(path);
            match &n.left {
                Option::Some(lc) => (&**lc).rightmost_vec(),
                Option::None => unreached(),
            }
        };
        q.append(&mut rest);
        proof {
            let n = t0.node_at_spec(path@);
            let lc = *n.left.unwrap();
            assert(seq![Dir::Left].len() == 1);
            assert(seq![Dir::Left][0] == Dir::Left);
            assert(seq![Dir::Left].skip(1) =~= Seq::<Dir>::empty());
            assert(lc.valid_path(Seq::<Dir>::empty()));
            assert(lc.node_at_spec(Seq::<Dir>::empty()) == lc);
            assert(n.valid_path(seq![Dir::Left]));
            assert(n.node_at_spec(seq![Dir::Left]) == lc);
            lemma_rightmost_pos(lc);
            lemma_valid_append(n, seq![Dir::Left], lc.rightmost_of());
            assert(n.valid_path(seq![Dir::Left] + lc.rightmost_of()));
            lemma_valid_append(t0, path@, seq![Dir::Left] + lc.rightmost_of());
            assert(q@ =~= path@ + (seq![Dir::Left] + lc.rightmost_of()));
            lemma_pos_append(t0, path@, seq![Dir::Left] + lc.rightmost_of());
            assert((seq![Dir::Left] + lc.rightmost_of()).len() > 0);
            assert((seq![Dir::Left] + lc.rightmost_of())[0] == Dir::Left);
            assert((seq![Dir::Left] + lc.rightmost_of()).skip(1) =~= lc.rightmost_of());
            assert(n.pos_of(seq![Dir::Left] + lc.rightmost_of()) == lc.pos_of(lc.rightmost_of()));
            assert(t0.pos_of(q@) == t0.pos_of(path@) - 1);
            lemma_count_at(n, seq![Dir::Left] + lc.rightmost_of());
            lemma_iv_index(t0, q@);
            lemma_iv_index(t0, path@);
            lemma_iv_len(t0);
            lemma_pos_bounds(t0, path@);
        }
        t.swap_item(path, &q);
        proof {
            assert(t.valid_path(q@));
            assert(t.node_at_spec(q@).count() == t0.node_at_spec(q@).count());
            assert(t0.node_at_spec(q@).count() < t0.node_at_spec(path@).count());
            assert(t.delete_ok(q@));
        }
        let ghost t2 = *t;
        subtree_delete(t, &q);
        proof {
            assert(t2 == t0.items_swapped(path@, q@));
            assert(path@ + seq![Dir::Left] + t0.node_at_spec(
                path@,
            ).left.unwrap().rightmost_of() =~= q@);
            assert(*final(t) == t0.delete_spec(path@));
            assert(final(t).iv() =~= t0.iv().remove(t0.pos_of(path@)));
            assert forall|q2: Seq<Dir>| #[trigger] final(t).valid_path(q2) implies t0.valid_path(
                q2,
            ) by {
                assert(t2.valid_path(q2));
            }
        }
    }
}

/// A successor's path always names a node.
pub proof fn lemma_succ_valid(t: Node, p: Seq<Dir>)
    requires
        t.valid_path(p),
    ensures
        t.valid_path(t.succ_spec(p)),
{
    let n = t.node_at_spec(p);
    if n.right is Some {
        let rc = *n.right.unwrap();
        assert(seq![Dir::Right].len() == 1);
        assert(seq![Dir::Right][0] == Dir::Right);
        assert(seq![Dir::Right].skip(1) =~= Seq::<Dir>::empty());
        assert(rc.valid_path(Seq::<Dir>::empty()));
        assert(rc.node_at_spec(Seq::<Dir>::empty()) == rc);
        assert(n.valid_path(seq![Dir::Right]));
        assert(n.node_at_spec(seq![Dir::Right]) == rc);
        lemma_leftmost(rc);
        lemma_valid_append(n, seq![Dir::Right], rc.leftmost_of());
        lemma_valid_append(t, p, seq![Dir::Right] + rc.leftmost_of());
        assert(t.succ_spec(p) =~= p + (seq![Dir::Right] + rc.leftmost_of()));
    } else if p == seq![Dir::Right] {
        lemma_leftmost(n);
        lemma_valid_append(t, p, n.leftmost_of());
    } else if Node::last_index_of_dir(p, Dir::Left) >= 0 {
        lemma_last_index_bound(p, Dir::Left);
        lemma_valid_take(t, p, Node::last_index_of_dir(p, Dir::Left));
    } else {
    }
}

/// A predecessor's path always names a node.
pub proof fn lemma_pred_valid(t: Node, p: Seq<Dir>)
    requires
        t.valid_path(p),
    ensures
        t.valid_path(t.pred_spec(p)),
{
    let n = t.node_at_spec(p);
    if n.left is Some {
        let lc = *n.left.unwrap();
        assert(seq![Dir::Left].len() == 1);
        assert(seq![Dir::Left][0] == Dir::Left);
        assert(seq![Dir::Left].skip(1) =~= Seq::<Dir>::empty());
        assert(lc.valid_path(Seq::<Dir>::empty()));
        assert(lc.node_at_spec(Seq::<Dir>::empty()) == lc);
        assert(n.valid_path(seq![Dir::Left]));
        assert(n.node_at_spec(seq![Dir::Left]) == lc);
        lemma_rightmost(lc);
        lemma_valid_append(n, seq![Dir::Left], lc.rightmost_of());
        lemma_valid_append(t, p, seq![Dir::Left] + lc.rightmost_of());
        assert(t.pred_spec(p) =~= p + (seq![Dir::Left] + lc.rightmost_of()));
    } else if Node::last_index_of_dir(p, Dir::Right) >= 0 {
        lemma_last_index_bound(p, Dir::Right);
        lemma_valid_take(t, p, Node::last_index_of_dir(p, Dir::Right));
    } else {
    }
}

/// The last index of a direction lies inside the path.
pub proof fn lemma_last_index_bound(p: Seq<Dir>, d: Dir)
    ensures
        Node::last_index_of_dir(p, d) < p.len(),
    decreases p.len(),
{
    if p.len() > 0 && p.last() != d {
        lemma_last_index_bound(p.drop_last(), d);
    }
}

/// Linking re-writes both directions of the edge: after a left child is in
/// place, the child's parent is the node that linked it, and the node's left
/// child is the one linked.
pub proof fn lemma_link_back_reference(t: Node, p: Seq<Dir>)
    requires
        t.valid_path(p),
        t.node_at_spec(p).left is Some,
    ensures
        t.valid_path(p.push(Dir::Left)),
        t.node_at_spec(p.push(Dir::Left)) == *t.node_at_spec(p).left.unwrap(),
        p.push(Dir::Left).drop_last() == p,
        t.node_at_spec(p.push(Dir::Left).drop_last()) == t.node_at_spec(p),
{
    let n = t.node_at_spec(p);
    let lc = *n.left.unwrap();
    assert(seq![Dir::Left].len() == 1);
    assert(seq![Dir::Left][0] == Dir::Left);
    assert(seq![Dir::Left].skip(1) =~= Seq::<Dir>::empty());
    assert(lc.valid_path(Seq::<Dir>::empty()));
    assert(lc.node_at_spec(Seq::<Dir>::empty()) == lc);
    assert(n.valid_path(seq![Dir::Left]));
    assert(n.node_at_spec(seq![Dir::Left]) == lc);
    lemma_valid_append(t, p, seq![Dir::Left]);
    assert(p.push(Dir::Left) =~= p + seq![Dir::Left]);
    assert(p.push(Dir::Left).drop_last() =~= p);
}

/// The mirror of `lemma_link_back_reference` for right children.
pub proof fn lemma_link_back_reference_right(t: Node, p: Seq<Dir>)
    requires
        t.valid_path(p),
        t.node_at_spec(p).right is Some,
    ensures
        t.valid_path(p.push(Dir::Right)),
        t.node_at_spec(p.push(Dir::Right)) == *t.node_at_spec(p).right.unwrap(),
        p.push(Dir::Right).drop_last() == p,
        t.node_at_spec(p.push(Dir::Right).drop_last()) == t.node_at_spec(p),
{
    let n = t.node_at_spec(p);
    let rc = *n.right.unwrap();
    assert(seq![Dir::Right].len() == 1);
    assert(seq![Dir::Right][0] == Dir::Right);
    assert(seq![Dir::Right].skip(1) =~= Seq::<Dir>::empty());
    assert(rc.valid_path(Seq::<Dir>::empty()));
    assert(rc.node_at_spec(Seq::<Dir>::empty()) == rc);
    assert(n.valid_path(seq![Dir::Right]));
    assert(n.node_at_spec(seq![Dir::Right]) == rc);
    lemma_valid_append(t, p, seq![Dir::Right]);
    assert(p.push(Dir::Right) =~= p + seq![Dir::Right]);
    assert(p.push(Dir::Right).drop_last() =~= p);
}

/// Removing a node keeps the in-order payload sequence sorted under any
/// ordering it was sorted by, with exactly one entry fewer.
pub proof fn lemma_delete_keeps_order(
    before: Node,
    after: Node,
    p: Seq<Dir>,
    leq: spec_fn(Value, Value) -> bool,
)
    requires
        before.valid_path(p),
        after.iv() == before.iv().remove(before.pos_of(p)),
        vstd::relations::sorted_by(before.iv(), leq),
    ensures
        after.iv().len() + 1 == before.iv().len(),
        vstd::relations::sorted_by(after.iv(), leq),
{
    lemma_iv_len(before);
    lemma_pos_bounds(before, p);
    let k = before.pos_of(p);
    let a = after.iv();
    let b = before.iv();
    assert forall|i: int, j: int| 0 <= i < j < a.len() implies #[trigger] leq(a[i], a[j]) by {
        let bi = if i < k {
            i
        } else {
            i + 1
        };
        let bj = if j < k {
            j
        } else {
            j + 1
        };
        assert(a[i] == b[bi]);
        assert(a[j] == b[bj]);
        assert(leq(b[bi], b[bj]));
    }
}

/// The leftmost node of a subtree sits at the first in-order position.
pub proof fn lemma_leftmost_pos(t: Node)
    ensures
        t.pos_of(t.leftmost_of()) == 0,
        t.node_at_spec(t.leftmost_of()).left is None,
        t.valid_path(t.leftmost_of()),
    decreases t,
{
    lemma_leftmost(t);
    match t.left {
        Option::Some(l) => {
            lemma_leftmost_pos(*l);
            assert(t.leftmost_of()[0] == Dir::Left);
            assert(t.leftmost_of().skip(1) =~= l.leftmost_of());
        },
        Option::None => {
            assert(t.leftmost_of() =~= Seq::<Dir>::empty());
        },
    }
}

/// What the last index of a direction means: the step there is `d`, nothing
/// after it is, and a result of -1 means no step is `d` at all.
pub proof fn lemma_last_index_props(p: Seq<Dir>, d: Dir)
    ensures
        Node::last_index_of_dir(p, d) >= -1,
        Node::last_index_of_dir(p, d) >= 0 ==> Node::last_index_of_dir(p, d) < p.len() && p[
            Node::last_index_of_dir(p, d)
        ] == d && (forall|i: int| Node::last_index_of_dir(p, d) < i < p.len() ==> p[i] != d),
        Node::last_index_of_dir(p, d) == -1 ==> (forall|i: int| 0 <= i < p.len() ==> p[i] != d),
    decreases p.len(),
{
    if p.len() > 0 {
        if p.last() == d {
        } else {
            lemma_last_index_props(p.drop_last(), d);
            let j = Node::last_index_of_dir(p, d);
            if j >= 0 {
                assert(p.drop_last()[j] == p[j]);
                assert forall|i: int| j < i < p.len() implies p[i] != d by {
                    if i < p.len() - 1 {
                        assert(0 <= i < p.drop_last().len());
                        assert(p.drop_last()[i] != d);
                        assert(p.drop_last()[i] == p[i]);
                    } else {
                        assert(p[i] == p.last());
                    }
                }
            } else {
                assert(Node::last_index_of_dir(p.drop_last(), d) == -1);
                assert forall|i: int| 0 <= i < p.len() implies p[i] != d by {
                    if i < p.len() - 1 {
                        assert(0 <= i < p.drop_last().len());
                        assert(p.drop_last()[i] != d);
                        assert(p.drop_last()[i] == p[i]);
                    } else {
                        assert(p[i] == p.last());
                    }
                }
            }
        }
    }
}

/// A valid path of right steps only, ending at a node with no right child,
/// is the rightmost path.
pub proof fn lemma_all_right_is_rightmost(t: Node, p: Seq<Dir>)
    requires
        t.valid_path(p),
        forall|i: int| 0 <= i < p.len() ==> p[i] == Dir::Right,
        t.node_at_spec(p).right is None,
    ensures
        p == t.rightmost_of(),
    decreases p.len(),
{
    if p.len() == 0 {
        assert(t.rightmost_of() =~= Seq::<Dir>::empty());
    } else {
        assert(p[0] == Dir::Right);
        let r = *t.right.unwrap();
        assert forall|i: int| 0 <= i < p.skip(1).len() implies p.skip(1)[i] == Dir::Right by {
            assert(p.skip(1)[i] == p[i + 1]);
        }
        lemma_all_right_is_rightmost(r, p.skip(1));
        assert(p =~= seq![Dir::Right] + r.rightmost_of());
    }
}

/// A valid path of left steps only, ending at a node with no left child, is
/// the leftmost path.
pub proof fn lemma_all_left_is_leftmost(t: Node, p: Seq<Dir>)
    requires
        t.valid_path(p),
        forall|i: int| 0 <= i < p.len() ==> p[i] == Dir::Left,
        t.node_at_spec(p).left is None,
    ensures
        p == t.leftmost_of(),
    decreases p.len(),
{
    if p.len() == 0 {
        assert(t.leftmost_of() =~= Seq::<Dir>::empty());
    } else {
        assert(p[0] == Dir::Left);
        let l = *t.left.unwrap();
        assert forall|i: int| 0 <= i < p.skip(1).len() implies p.skip(1)[i] == Dir::Left by {
            assert(p.skip(1)[i] == p[i + 1]);
        }
        lemma_all_left_is_leftmost(l, p.skip(1));
        assert(p =~= seq![Dir::Left] + l.leftmost_of());
    }
}

/// Two valid paths with the same in-order position name the same node: the
/// position determines the path.
pub proof fn lemma_pos_injective(t: Node, p: Seq<Dir>, q: Seq<Dir>)
    requires
        t.valid_path(p),
        t.valid_path(q),
        t.pos_of(p) == t.pos_of(q),
    ensures
        p == q,
    decreases p.len(),
{
    let cl = Node::count_opt(t.left) as int;
    if p.len() == 0 {
        if q.len() == 0 {
            assert(p =~= q);
        } else if q[0] == Dir::Left {
            lemma_pos_bounds(*t.left.unwrap(), q.skip(1));
        } else {
            lemma_pos_bounds(*t.right.unwrap(), q.skip(1));
        }
    } else if p[0] == Dir::Left {
        lemma_pos_bounds(*t.left.unwrap(), p.skip(1));
        if q.len() == 0 {
        } else if q[0] == Dir::Left {
            lemma_pos_injective(*t.left.unwrap(), p.skip(1), q.skip(1));
            assert(p =~= seq![p[0]] + p.skip(1));
            assert(q =~= seq![q[0]] + q.skip(1));
        } else {
            lemma_pos_bounds(*t.right.unwrap(), q.skip(1));
        }
    } else {
        lemma_pos_bounds(*t.right.unwrap(), p.skip(1));
        if q.len() == 0 {
        } else if q[0] == Dir::Left {
            lemma_pos_bounds(*t.left.unwrap(), q.skip(1));
            lemma_pos_bounds(*t.right.unwrap(), p.skip(1));
        } else {
            lemma_pos_injective(*t.right.unwrap(), p.skip(1), q.skip(1));
            assert(p =~= seq![p[0]] + p.skip(1));
            assert(q =~= seq![q[0]] + q.skip(1));
        }
    }
}

/// A valid path splits anywhere: the prefix is valid, the suffix is valid in
/// the subtree the prefix reaches, and navigation composes.
pub proof fn lemma_valid_split(t: Node, p: Seq<Dir>, k: int)
    requires
        0 <= k <= p.len(),
        t.valid_path(p),
    ensures
        t.valid_path(p.take(k)),
        t.node_at_spec(p.take(k)).valid_path(p.skip(k)),
        t.node_at_spec(p) == t.node_at_spec(p.take(k)).node_at_spec(p.skip(k)),
    decreases k,
{
    if k == 0 {
        assert(p.take(0) =~= Seq::<Dir>::empty());
        assert(p.skip(0) =~= p);
    } else {
        assert(p.take(k)[0] == p[0]);
        assert(p.take(k).skip(1) =~= p.skip(1).take(k - 1));
        assert(p.skip(k) =~= p.skip(1).skip(k - 1));
        if p[0] == Dir::Left {
            lemma_valid_split(*t.left.unwrap(), p.skip(1), k - 1);
        } else {
            lemma_valid_split(*t.right.unwrap(), p.skip(1), k - 1);
        }
    }
}

/// The successor steps one position forward along the in-order sequence, and
/// the maximum node answers with its own path.
pub proof fn lemma_successor_adjacent(t: Node, p: Seq<Dir>)
    requires
        t.valid_path(p),
        t.succ_regular(p),
    ensures
        t.valid_path(t.succ_spec(p)),
        t.pos_of(p) == t.count() - 1 ==> t.succ_spec(p) == p,
        t.pos_of(p) < t.count() - 1 ==> t.pos_of(t.succ_spec(p)) == t.pos_of(p) + 1,
{
    lemma_succ_valid(t, p);
    lemma_pos_bounds(t, p);
    lemma_pos_bounds(t, t.succ_spec(p));
    let n = t.node_at_spec(p);
    if n.right is Some {
        let rc = *n.right.unwrap();
        let step = seq![Dir::Right] + rc.leftmost_of();
        assert(seq![Dir::Right].len() == 1);
        assert(seq![Dir::Right][0] == Dir::Right);
        assert(seq![Dir::Right].skip(1) =~= Seq::<Dir>::empty());
        assert(rc.valid_path(Seq::<Dir>::empty()));
        assert(rc.node_at_spec(Seq::<Dir>::empty()) == rc);
        assert(n.valid_path(seq![Dir::Right]));
        assert(n.node_at_spec(seq![Dir::Right]) == rc);
        lemma_leftmost_pos(rc);
        lemma_valid_append(n, seq![Dir::Right], rc.leftmost_of());
        assert(step[0] == Dir::Right);
        assert(step.skip(1) =~= rc.leftmost_of());
        assert(step.len() > 0);
        assert(n.pos_of(step) == Node::count_opt(n.left) + 1);
        lemma_pos_append(t, p, step);
        assert(t.succ_spec(p) =~= p + step);
        assert(t.pos_of(t.succ_spec(p)) == t.pos_of(p) + 1);
    } else {
        let j = Node::last_index_of_dir(p, Dir::Left);
        lemma_last_index_props(p, Dir::Left);
        if p == seq![Dir::Right] {
            assert(n.left is None);
            assert(n.leftmost_of() =~= Seq::<Dir>::empty());
            assert(t.succ_spec(p) =~= p);
            assert forall|i: int| 0 <= i < p.len() implies p[i] == Dir::Right by {
                assert(p[0] == Dir::Right);
            }
            lemma_all_right_is_rightmost(t, p);
            lemma_rightmost_pos(t);
        } else if j >= 0 {
            let q = p.take(j);
            assert(t.succ_spec(p) == q);
            lemma_valid_split(t, p, j);
            let m = t.node_at_spec(q);
            let s = p.skip(j + 1);
            assert(p.skip(j)[0] == p[j]);
            assert(p[j] == Dir::Left);
            assert(p.skip(j).len() > 0);
            assert(p.skip(j).skip(1) =~= s);
            assert(m.left is Some);
            let lc = *m.left.unwrap();
            assert(lc.valid_path(s));
            assert(m.node_at_spec(p.skip(j)) == lc.node_at_spec(s));
            assert(n == lc.node_at_spec(s));
            assert forall|i: int| 0 <= i < s.len() implies s[i] == Dir::Right by {
                assert(s[i] == p[j + 1 + i]);
                assert(p[j + 1 + i] != Dir::Left);
            }
            lemma_all_right_is_rightmost(lc, s);
            lemma_rightmost_pos(lc);
            assert(lc.pos_of(s) == lc.count() - 1);
            let stepl = seq![Dir::Left] + s;
            assert(stepl =~= p.skip(j));
            assert(stepl[0] == Dir::Left);
            assert(stepl.skip(1) =~= s);
            assert(stepl.len() > 0);
            assert(m.pos_of(stepl) == lc.pos_of(s));
            lemma_pos_append(t, q, stepl);
            assert(p =~= q + stepl);
            assert(t.pos_of(p) == t.pos_of(q) - Node::count_opt(m.left) + (lc.count() - 1));
            assert(Node::count_opt(m.left) == lc.count());
            assert(t.pos_of(q) == t.pos_of(p) + 1);
            lemma_pos_bounds(t, q);
        } else {
            assert(t.succ_spec(p) == p);
            assert(j == -1);
            assert forall|i: int| 0 <= i < p.len() implies p[i] == Dir::Right by {
                assert(p[i] != Dir::Left);
            }
            lemma_all_right_is_rightmost(t, p);
            lemma_rightmost_pos(t);
        }
    }
}

/// The predecessor steps one position backward along the in-order sequence,
/// and the minimum node answers with its own path.
pub proof fn lemma_predecessor_adjacent(t: Node, p: Seq<Dir>)
    requires
        t.valid_path(p),
    ensures
        t.valid_path(t.pred_spec(p)),
        t.pos_of(p) == 0 ==> t.pred_spec(p) == p,
        t.pos_of(p) > 0 ==> t.pos_of(t.pred_spec(p)) == t.pos_of(p) - 1,
{
    lemma_pred_valid(t, p);
    lemma_pos_bounds(t, p);
    lemma_pos_bounds(t, t.pred_spec(p));
    let n = t.node_at_spec(p);
    if n.left is Some {
        let lc = *n.left.unwrap();
        let step = seq![Dir::Left] + lc.rightmost_of();
        assert(seq![Dir::Left].len() == 1);
        assert(seq![Dir::Left][0] == Dir::Left);
        assert(seq![Dir::Left].skip(1) =~= Seq::<Dir>::empty());
        assert(lc.valid_path(Seq::<Dir>::empty()));
        assert(lc.node_at_spec(Seq::<Dir>::empty()) == lc);
        assert(n.valid_path(seq![Dir::Left]));
        assert(n.node_at_spec(seq![Dir::Left]) == lc);
        lemma_rightmost_pos(lc);
        lemma_valid_append(n, seq![Dir::Left], lc.rightmost_of());
        assert(step[0] == Dir::Left);
        assert(step.skip(1) =~= lc.rightmost_of());
        assert(step.len() > 0);
        assert(n.pos_of(step) == lc.pos_of(lc.rightmost_of()));
        lemma_pos_append(t, p, step);
        assert(t.pred_spec(p) =~= p + step);
        assert(t.pos_of(t.pred_spec(p)) == t.pos_of(p) - 1);
    } else {
        let j = Node::last_index_of_dir(p, Dir::Right);
        lemma_last_index_props(p, Dir::Right);
        if j >= 0 {
            let q = p.take(j);
            assert(t.pred_spec(p) == q);
            lemma_valid_split(t, p, j);
            let m = t.node_at_spec(q);
            let s = p.skip(j + 1);
            assert(p.skip(j)[0] == p[j]);
            assert(p[j] == Dir::Right);
            assert(p.skip(j).len() > 0);
            assert(p.skip(j).skip(1) =~= s);
            assert(m.right is Some);
            let rc = *m.right.unwrap();
            assert(rc.valid_path(s));
            assert(m.node_at_spec(p.skip(j)) == rc.node_at_spec(s));
            assert(n == rc.node_at_spec(s));
            assert forall|i: int| 0 <= i < s.len() implies s[i] == Dir::Left by {
                assert(s[i] == p[j + 1 + i]);
                assert(p[j + 1 + i] != Dir::Right);
            }
            lemma_all_left_is_leftmost(rc, s);
            lemma_leftmost_pos(rc);
            assert(rc.pos_of(s) == 0);
            let stepr = seq![Dir::Right] + s;
            assert(stepr =~= p.skip(j));
            assert(stepr[0] == Dir::Right);
            assert(stepr.skip(1) =~= s);
            assert(stepr.len() > 0);
            assert(m.pos_of(stepr) == Node::count_opt(m.left) + 1);
            lemma_pos_append(t, q, stepr);
            assert(p =~= q + stepr);
            assert(t.pos_of(p) == t.pos_of(q) + 1);
            lemma_pos_bounds(t, q);
        } else {
            assert(t.pred_spec(p) == p);
            assert(j == -1);
            assert forall|i: int| 0 <= i < p.len() implies p[i] == Dir::Left by {
                assert(p[i] != Dir::Right);
            }
            lemma_all_left_is_leftmost(t, p);
            lemma_leftmost_pos(t);
        }
    }
}

/// Away from the maximum, the predecessor undoes the successor.
pub proof fn lemma_pred_inverts_succ(t: Node, p: Seq<Dir>)
    requires
        t.valid_path(p),
        t.succ_regular(p),
        t.pos_of(p) < t.count() - 1,
    ensures
        t.pred_spec(t.succ_spec(p)) == p,
{
    lemma_successor_adjacent(t, p);
    lemma_predecessor_adjacent(t, t.succ_spec(p));
    lemma_pos_bounds(t, p);
    lemma_pos_injective(t, t.pred_spec(t.succ_spec(p)), p);
}

/// Away from the minimum, the successor undoes the predecessor, as long as
/// the predecessor is not the one irregular input.
pub proof fn lemma_succ_inverts_pred(t: Node, p: Seq<Dir>)
    requires
        t.valid_path(p),
        t.pos_of(p) > 0,
        t.succ_regular(t.pred_spec(p)),
    ensures
        t.succ_spec(t.pred_spec(p)) == p,
{
    lemma_predecessor_adjacent(t, p);
    lemma_successor_adjacent(t, t.pred_spec(p));
    lemma_pos_bounds(t, p);
    lemma_pos_injective(t, t.succ_spec(t.pred_spec(p)), p);
}

/// The in-order path sequence has one entry per node: the `i`-th entry is
/// the valid path whose in-order position is `i`.
pub proof fn lemma_inorder_paths_index(t: Node, i: int)
    ensures
        t.inorder_paths().len() == t.count(),
        0 <= i < t.count() ==> t.valid_path(t.inorder_paths()[i]) && t.pos_of(
            t.inorder_paths()[i],
        ) == i,
    decreases t,
{
    let cl = Node::count_opt(t.left) as int;
    match t.left {
        Option::Some(l) => lemma_inorder_paths_index(*l, i),
        Option::None => {},
    }
    match t.right {
        Option::Some(r) => lemma_inorder_paths_index(*r, i - cl - 1),
        Option::None => {},
    }
    if 0 <= i < t.count() {
        let p = t.inorder_paths()[i];
        if i < cl {
            let l = *t.left.unwrap();
            let x = l.inorder_paths()[i];
            assert(p == seq![Dir::Left] + x);
            assert(p[0] == Dir::Left);
            assert(p.skip(1) =~= x);
            assert(p.len() > 0);
        } else if i == cl {
            assert(p =~= Seq::<Dir>::empty());
        } else {
            let r = *t.right.unwrap();
            let x = r.inorder_paths()[i - cl - 1];
            assert(p == seq![Dir::Right] + x);
            assert(p[0] == Dir::Right);
            assert(p.skip(1) =~= x);
            assert(p.len() > 0);
        }
    }
}

/// Starting from the leftmost node and taking the successor again and again
/// walks the paths of all nodes exactly once, in ascending in-order
/// sequence; the maximum node is a fixed point of the walk.
pub proof fn lemma_successor_traversal(t: Node, i: int)
    requires
        0 <= i < t.count(),
        t.succ_regular(t.inorder_paths()[i]),
    ensures
        t.inorder_paths().len() == t.count(),
        t.inorder_paths()[0] == t.leftmost_of(),
        i < t.count() - 1 ==> t.succ_spec(t.inorder_paths()[i]) == t.inorder_paths()[i + 1],
        i == t.count() - 1 ==> t.succ_spec(t.inorder_paths()[i]) == t.inorder_paths()[i],
{
    lemma_inorder_paths_index(t, i);
    lemma_inorder_paths_index(t, i + 1);
    lemma_inorder_paths_index(t, 0);
    lemma_leftmost_pos(t);
    lemma_pos_injective(t, t.inorder_paths()[0], t.leftmost_of());
    lemma_successor_adjacent(t, t.inorder_paths()[i]);
    if i < t.count() - 1 {
        lemma_pos_injective(t, t.succ_spec(t.inorder_paths()[i]), t.inorder_paths()[i + 1]);
    }
}

/// On a tree whose in-order payloads are sorted, the successor walk ascends:
/// each visited payload relates to the next one by the ordering.
pub proof fn lemma_traversal_ascending(t: Node, i: int, leq: spec_fn(Value, Value) -> bool)
    requires
        0 <= i < t.count() - 1,
        vstd::relations::sorted_by(t.iv(), leq),
    ensures
        t.iv()[i] == t.node_at_spec(t.inorder_paths()[i]).payload(),
        t.iv()[i + 1] == t.node_at_spec(t.inorder_paths()[i + 1]).payload(),
        leq(t.iv()[i], t.iv()[i + 1]),
{
    lemma_iv_len(t);
    lemma_inorder_paths_index(t, i);
    lemma_inorder_paths_index(t, i + 1);
    lemma_iv_index(t, t.inorder_paths()[i]);
    lemma_iv_index(t, t.inorder_paths()[i + 1]);
}

/// The same walk backwards: from the rightmost node, the predecessor visits
/// every path once in descending in-order sequence, and the minimum node is
/// a fixed point.
pub proof fn lemma_predecessor_traversal(t: Node, i: int)
    requires
        0 <= i < t.count(),
    ensures
        t.inorder_paths().len() == t.count(),
        t.inorder_paths()[t.count() - 1] == t.rightmost_of(),
        i > 0 ==> t.pred_spec(t.inorder_paths()[i]) == t.inorder_paths()[i - 1],
        i == 0 ==> t.pred_spec(t.inorder_paths()[i]) == t.inorder_paths()[i],
{
    lemma_inorder_paths_index(t, i);
    lemma_inorder_paths_index(t, i - 1);
    lemma_inorder_paths_index(t, t.count() - 1);
    lemma_rightmost_pos(t);
    lemma_pos_injective(t, t.inorder_paths()[t.count() - 1], t.rightmost_of());
    lemma_predecessor_adjacent(t, t.inorder_paths()[i]);
    if i > 0 {
        lemma_pos_injective(t, t.pred_spec(t.inorder_paths()[i]), t.inorder_paths()[i - 1]);
    }
}

/// Putting a subtree back where it was read from changes nothing.
pub proof fn lemma_replace_at_self(t: Node, p: Seq<Dir>)
    requires
        t.valid_path(p),
    ensures
        t.replace_at(p, t.node_at_spec(p)) == t,
    decreases p.len(),
{
    if p.len() == 0 {
    } else if p[0] == Dir::Left {
        lemma_replace_at_self(*t.left.unwrap(), p.skip(1));
    } else {
        lemma_replace_at_self(*t.right.unwrap(), p.skip(1));
    }
}

/// Replacing twice at one path keeps only the second replacement.
pub proof fn lemma_replace_at_twice(t: Node, p: Seq<Dir>, m1: Node, m2: Node)
    requires
        t.valid_path(p),
    ensures
        t.replace_at(p, m1).replace_at(p, m2) == t.replace_at(p, m2),
    decreases p.len(),
{
    if p.len() == 0 {
    } else if p[0] == Dir::Left {
        lemma_replace_at_twice(*t.left.unwrap(), p.skip(1), m1, m2);
    } else {
        lemma_replace_at_twice(*t.right.unwrap(), p.skip(1), m1, m2);
    }
}

/// After a replacement, the replaced path names the new subtree.
pub proof fn lemma_node_at_replace(t: Node, p: Seq<Dir>, m: Node)
    requires
        t.valid_path(p),
    ensures
        t.replace_at(p, m).node_at_spec(p) == m,
    decreases p.len(),
{
    if p.len() == 0 {
    } else if p[0] == Dir::Left {
        lemma_node_at_replace(*t.left.unwrap(), p.skip(1), m);
    } else {
        lemma_node_at_replace(*t.right.unwrap(), p.skip(1), m);
    }
}

/// When the grafted subtree has no paths beyond those of the one it
/// replaces, the whole tree gains no paths either.
pub proof fn lemma_replace_at_valid_subset(t: Node, p: Seq<Dir>, m: Node, q: Seq<Dir>)
    requires
        t.valid_path(p),
        forall|s: Seq<Dir>| #[trigger] m.valid_path(s) ==> t.node_at_spec(p).valid_path(s),
        t.replace_at(p, m).valid_path(q),
    ensures
        t.valid_path(q),
    decreases p.len(),
{
    if p.len() == 0 {
    } else if q.len() == 0 {
    } else if p[0] == Dir::Left {
        let l = *t.left.unwrap();
        if q[0] == Dir::Left {
            lemma_replace_at_valid_subset(l, p.skip(1), m, q.skip(1));
        }
    } else {
        let r = *t.right.unwrap();
        if q[0] == Dir::Right {
            lemma_replace_at_valid_subset(r, p.skip(1), m, q.skip(1));
        }
    }
}

/// A payload replacement undoes: the tree before is itself a payload
/// replacement of the tree after, so neither holds a path the other lacks.
pub proof fn lemma_item_replaced_involution(t: Node, p: Seq<Dir>, it: Option<Value>)
    requires
        t.valid_path(p),
    ensures
        t.item_replaced(p, it).item_replaced(p, t.node_at_spec(p).item) == t,
    decreases p.len(),
{
    let tr = t.item_replaced(p, it);
    lemma_item_replaced_at(t, p, it, p);
    lemma_node_at_replace(t, p, Node { item: it, ..t.node_at_spec(p) });
    assert(tr.node_at_spec(p) == (Node { item: it, ..t.node_at_spec(p) }));
    assert((Node { item: t.node_at_spec(p).item, ..tr.node_at_spec(p) }) == t.node_at_spec(p));
    lemma_replace_at_twice(
        t,
        p,
        Node { item: it, ..t.node_at_spec(p) },
        t.node_at_spec(p),
    );
    lemma_replace_at_self(t, p);
}

impl PartialEq for Node {
    fn eq(&self, other: &Node) -> (r: bool) {
        let a = match &self.item {
            Option::Some(v) => v.deep_clone(),
            Option::None => Value::Nil,
        };
        let b = match &other.item {
            Option::Some(v) => v.deep_clone(),
            Option::None => Value::Nil,
        };
        a == b
    }
}

impl vstd::std_specs::cmp::PartialEqSpecImpl for Node {
    open spec fn obeys_eq_spec() -> bool {
        true
    }

    open spec fn eq_spec(&self, other: &Node) -> bool {
        self.payload().eq_val(other.payload())
    }
}

} // verus!
