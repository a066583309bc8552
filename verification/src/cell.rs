use vstd::prelude::*;

use crate::deep_clone::DeepClone;
use crate::value::Value;

verus! {

/// A lisp-style cons cell: an optional head value and an optional chained
/// tail cell.  Both absent is the nil cell.
#[derive(Debug)]
pub struct Cell {
    pub head: Option<Value>,
    pub tail: Option<Box<Cell>>,
}

impl Cell {
    /// The values stored along the chain, in order.  An absent head
    /// contributes nothing.
    pub open spec fn spec_values(self) -> Seq<Value>
        decreases self,
    {
        (match self.head {
            Option::Some(v) => seq![v],
            Option::None => Seq::empty(),
        }) + (match self.tail {
            Option::Some(t) => t.spec_values(),
            Option::None => Seq::empty(),
        })
    }

    /// The empty cell.
    pub fn nil() -> (r: Cell)
        ensures
            r.head is None,
            r.tail is None,
            r.spec_values() == Seq::<Value>::empty(),
    {
        let r = Cell { head: Option::None, tail: Option::None };
        proof {
            assert(r.spec_values() =~= Seq::<Value>::empty());
        }
        r
    }

    /// True exactly when the cell holds neither a head value nor a tail.
    pub fn is_nil(&self) -> (r: bool)
        ensures
            r == (self.head is None && self.tail is None),
    {
        self.head.is_none() && self.tail.is_none()
    }

    /// A cell holding one value and no tail.
    pub fn new(value: Value) -> (r: Cell)
        ensures
            r.head == Some(value),
            r.tail is None,
            r.spec_values() == seq![value],
    {
        let ghost v = value;
        let r = Cell { head: Option::Some(value), tail: Option::None };
        proof {
            assert(r.spec_values() =~= seq![v]);
        }
        r
    }

    /// A copy of the head value, `None` when the head is absent.
    pub fn head(&self) -> (r: Option<Value>)
        ensures
            r == self.head,
    {
        match &self.head {
            Option::Some(v) => Option::Some(v.deep_clone()),
            Option::None => Option::None,
        }
    }

    /// The tail cell, if any.
    pub fn tail(&self) -> (r: Option<&Cell>)
        ensures
            r is Some <==> self.tail is Some,
            r matches Some(t) ==> *t == *self.tail.unwrap(),
    {
        match &self.tail {
            Option::Some(t) => Option::Some(&**t),
            Option::None => Option::None,
        }
    }

    /// Moves the whole contents of `new` to the end of this chain, leaving
    /// `new` nil.  A nil cell absorbs `new` in place.
    pub fn add(&mut self, new: &mut Cell)
        ensures
            final(self).spec_values() == old(self).spec_values() + old(new).spec_values(),
            final(new).head is None,
            final(new).tail is None,
        decreases *old(self),
    {
        if self.head.is_none() && self.tail.is_none() {
            self.head = new.head.take();
            self.tail = new.tail.take();
            proof {
                assert(final(self).spec_values() =~= old(self).spec_values()
                    + old(new).spec_values());
            }
        } else {
            match &mut self.tail {
                Option::Some(t) => {
                    (&mut **t).add(new);
                },
                Option::None => {
                    let moved = Cell { head: new.head.take(), tail: new.tail.take() };
                    self.tail = Option::Some(Box::new(moved));
                },
            }
            proof {
                assert(final(self).spec_values() =~= old(self).spec_values()
                    + old(new).spec_values());
            }
        }
    }

    /// Drops the tail if there is one, else the head value if there is one;
    /// reports whether anything was removed.
    pub fn pop(&mut self) -> (r: bool)
        ensures
            old(self).tail is Some ==> final(self).head == old(self).head && final(self).tail
                is None && r,
            old(self).tail is None && old(self).head is Some ==> final(self).head is None
                && final(self).tail is None && r,
            old(self).tail is None && old(self).head is None ==> *final(self) == *old(self) && !r,
    {
        if self.tail.is_some() {
            self.tail = Option::None;
            true
        } else if self.head.is_some() {
            self.head = Option::None;
            true
        } else {
            false
        }
    }

    /// True when the chain stores at least one value, despite what the name
    /// might suggest.
    pub fn is_empty(&self) -> (r: bool)
        ensures
            r == (self.spec_values().len() > 0),
    {
        self.has_values()
    }

    fn has_values(&self) -> (r: bool)
        ensures
            r == (self.spec_values().len() > 0),
        decreases *self,
    {
        if self.head.is_some() {
            true
        } else {
            match &self.tail {
                Option::Some(t) => (&**t).has_values(),
                Option::None => false,
            }
        }
    }

    /// The number of values stored along the chain.
    pub fn len(&self) -> (r: usize)
        requires
            self.spec_values().len() <= usize::MAX,
        ensures
            r == self.spec_values().len(),
        decreases *self,
    {
        let here: usize = if self.head.is_some() {
            1
        } else {
            0
        };
        match &self.tail {
            Option::Some(t) => here + (&**t).len(),
            Option::None => here,
        }
    }

    /// Copies the values stored along the chain, in order.
    pub fn values(&self) -> (r: Vec<Value>)
        ensures
            r@ == self.spec_values(),
        decreases *self,
    {
        let mut r: Vec<Value> = Vec::new();
        match &self.head {
            Option::Some(v) => {
                r.push(v.deep_clone());
            },
            Option::None => {},
        }
        match &self.tail {
            Option::Some(t) => {
                let mut rest = (&**t).values();
                r.append(&mut rest);
            },
            Option::None => {},
        }
        proof {
            assert(r@ =~= self.spec_values());
        }
        r
    }
}

impl DeepClone for Cell {
    fn deep_clone(&self) -> (r: Cell)
        decreases *self,
    {
        let head = match &self.head {
            Option::Some(v) => Option::Some(v.deep_clone()),
            Option::None => Option::None,
        };
        let tail = match &self.tail {
            Option::Some(t) => Option::Some(Box::new((&**t).deep_clone())),
            Option::None => Option::None,
        };
        let r = Cell { head, tail };
        proof {
            assert(r == *self);
        }
        r
    }
}

impl Default for Cell {
    fn default() -> (r: Cell)
        ensures
            r.head is None,
            r.tail is None,
    {
        Cell::nil()
    }
}

impl From<Value> for Cell {
    fn from(value: Value) -> (r: Cell) {
        Cell::new(value)
    }
}

impl vstd::std_specs::convert::FromSpecImpl<Value> for Cell {
    open spec fn obeys_from_spec() -> bool {
        true
    }

    open spec fn from_spec(value: Value) -> Cell {
        Cell { head: Option::Some(value), tail: Option::None }
    }
}

impl From<u8> for Cell {
    fn from(value: u8) -> (r: Cell) {
        Cell::new(Value::Byte(value))
    }
}

impl vstd::std_specs::convert::FromSpecImpl<u8> for Cell {
    open spec fn obeys_from_spec() -> bool {
        true
    }

    open spec fn from_spec(value: u8) -> Cell {
        Cell { head: Option::Some(Value::Byte(value)), tail: Option::None }
    }
}

impl From<u64> for Cell {
    fn from(value: u64) -> (r: Cell) {
        if value < 255u64 {
            Cell::new(Value::Byte(value as u8))
        } else {
            Cell::new(Value::UInt(value))
        }
    }
}

impl vstd::std_specs::convert::FromSpecImpl<u64> for Cell {
    open spec fn obeys_from_spec() -> bool {
        true
    }

    open spec fn from_spec(value: u64) -> Cell {
        Cell {
            head: Option::Some(
                if value < 255 {
                    Value::Byte(value as u8)
                } else {
                    Value::UInt(value)
                },
            ),
            tail: Option::None,
        }
    }
}

impl From<i32> for Cell {
    fn from(value: i32) -> (r: Cell) {
        if value >= 0 {
            Cell::new(Value::UInt(value as u64))
        } else {
            Cell::new(Value::Int(value as i64))
        }
    }
}

impl vstd::std_specs::convert::FromSpecImpl<i32> for Cell {
    open spec fn obeys_from_spec() -> bool {
        true
    }

    open spec fn from_spec(value: i32) -> Cell {
        Cell {
            head: Option::Some(
                if value >= 0 {
                    Value::UInt(value as u64)
                } else {
                    Value::Int(value as i64)
                },
            ),
            tail: Option::None,
        }
    }
}

impl From<i64> for Cell {
    fn from(value: i64) -> (r: Cell) {
        Cell::new(Value::Int(value))
    }
}

impl vstd::std_specs::convert::FromSpecImpl<i64> for Cell {
    open spec fn obeys_from_spec() -> bool {
        true
    }

    open spec fn from_spec(value: i64) -> Cell {
        Cell { head: Option::Some(Value::Int(value)), tail: Option::None }
    }
}

impl<'a> From<&'a str> for Cell {
    fn from(value: &'a str) -> (r: Cell) {
        Cell::new(Value::Str(String::from_str(value)))
    }
}

// A `String` cannot be named from its character sequence in specification
// code, so no exact `from_spec` exists for text.
impl<'a> vstd::std_specs::convert::FromSpecImpl<&'a str> for Cell {
    open spec fn obeys_from_spec() -> bool {
        false
    }

    open spec fn from_spec(value: &'a str) -> Cell {
        Cell { head: Option::None, tail: Option::None }
    }
}

} // verus!
