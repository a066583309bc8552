use vstd::prelude::*;

use std::rc::Rc;

use crate::deep_clone::DeepClone;

verus! {

/// A persistent, singly-linked list.  `Head(None)` is the empty list,
/// `Head(Some(h))` a one-element list, and `Tail((h, t))` the element `h`
/// followed by the list behind `t`.
#[derive(Debug, PartialEq, Eq)]
pub enum List<T> {
    Head(Option<T>),
    Tail((T, Rc<List<T>>)),
}

impl<T> List<T> {
    /// The elements, in order, as a mathematical sequence.
    pub open spec fn view_seq(self) -> Seq<T>
        decreases self,
    {
        match self {
            List::Head(Option::None) => Seq::empty(),
            List::Head(Option::Some(h)) => seq![h],
            List::Tail((h, t)) => seq![h] + (*t).view_seq(),
        }
    }

    /// The value carried by the last link of the chain: `None` exactly when
    /// the chain ends in an empty head.
    pub open spec fn last_link(self) -> Option<T>
        decreases self,
    {
        match self {
            List::Head(h) => h,
            List::Tail((_, t)) => (*t).last_link(),
        }
    }

    /// How many links the list holds.  An empty head still counts as one
    /// link, so this is one more than the element count on `Head(None)`.
    pub open spec fn spec_len(self) -> nat
        decreases self,
    {
        match self {
            List::Head(_) => 1,
            List::Tail((_, t)) => 1 + (*t).spec_len(),
        }
    }
}

impl<T: DeepClone> List<T> {
    /// A one-element list.
    pub fn new(head: T) -> (r: List<T>)
        ensures
            r.view_seq() == seq![head],
    {
        List::Head(Option::Some(head))
    }

    /// The list with `value` appended at the end.
    pub fn add(&self, value: T) -> (r: List<T>)
        ensures
            r.view_seq() == self.view_seq().push(value),
        decreases *self,
    {
        match self {
            List::Head(head) => match head {
                Option::Some(h) => {
                    let r = List::Tail((h.deep_clone(), Rc::new(List::new(value))));
                    proof {
                        assert(r.view_seq() =~= self.view_seq().push(value));
                    }
                    r
                },
                Option::None => {
                    let r = List::new(value);
                    proof {
                        assert(r.view_seq() =~= self.view_seq().push(value));
                    }
                    r
                },
            },
            List::Tail((head, tail)) => {
                let r = List::Tail((head.deep_clone(), Rc::new(List::add(&**tail, value))));
                proof {
                    assert(r.view_seq() =~= self.view_seq().push(value));
                }
                r
            },
        }
    }

    /// The list followed by all elements of `list`.
    pub fn append(&self, list: List<T>) -> (r: List<T>)
        ensures
            r.view_seq() == self.view_seq() + list.view_seq(),
        decreases *self,
    {
        match self {
            List::Head(head) => match head {
                Option::Some(h) => {
                    let r = List::Tail((h.deep_clone(), Rc::new(list)));
                    proof {
                        assert(r.view_seq() =~= self.view_seq() + r->Tail_0.1.view_seq());
                    }
                    r
                },
                Option::None => {
                    proof {
                        assert(list.view_seq() =~= self.view_seq() + list.view_seq());
                    }
                    list
                },
            },
            List::Tail((head, tail)) => {
                let ghost l = list.view_seq();
                let r = List::Tail((head.deep_clone(), Rc::new((&**tail).append(list))));
                proof {
                    assert(r.view_seq() =~= self.view_seq() + l);
                }
                r
            },
        }
    }

    /// The number of links.
    pub fn len(&self) -> (r: usize)
        requires
            self.spec_len() <= usize::MAX,
        ensures
            r == self.spec_len(),
        decreases *self,
    {
        match self {
            List::Head(_) => 1,
            List::Tail((_, tail)) => 1 + (&**tail).len(),
        }
    }
}

/// The first element of the list, `None` on an empty head.
pub fn car<T: DeepClone>(list: List<T>) -> (r: Option<T>)
    ensures
        match r {
            Option::Some(v) => list.view_seq().len() > 0 && v == list.view_seq()[0],
            Option::None => list.view_seq().len() == 0,
        },
{
    match list {
        List::Head(head) => head,
        List::Tail((head, _)) => Option::Some(head),
    }
}

/// The value at the end of the chain, `None` when the chain ends in an
/// empty head.
pub fn cdr<T: DeepClone>(list: List<T>) -> (r: Option<T>)
    ensures
        r == list.last_link(),
{
    match list {
        List::Head(head) => head,
        List::Tail((_, tail)) => cdr_ref(&*tail),
    }
}

/// `cdr` on a borrowed list: a copy of the value at the end of the chain.
fn cdr_ref<T: DeepClone>(list: &List<T>) -> (r: Option<T>)
    ensures
        r == list.last_link(),
    decreases *list,
{
    match list {
        List::Head(Option::Some(h)) => Option::Some(h.deep_clone()),
        List::Head(Option::None) => Option::None,
        List::Tail((_, tail)) => cdr_ref(&**tail),
    }
}

} // verus!
