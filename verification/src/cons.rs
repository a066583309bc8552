use vstd::prelude::*;

use crate::cell::Cell;
use crate::deep_clone::DeepClone;
use crate::value::Value;

verus! {

/// A chain starting with `head` and continuing with the contents of `tail`;
/// `tail` is drained into the result.
pub fn cons(head: Value, tail: &mut Cell) -> (r: Cell)
    ensures
        r.spec_values() == seq![head] + old(tail).spec_values(),
        final(tail).head is None,
        final(tail).tail is None,
{
    let ghost h = head;
    let mut cell = Cell::new(head);
    cell.add(tail);
    proof {
        assert(cell.spec_values() =~= seq![h] + old(tail).spec_values());
    }
    cell
}

/// A copy of everything after the head: the tail chain, or the nil cell when
/// there is none.
pub fn cdr(cell: &Cell) -> (r: Cell)
    ensures
        match cell.tail {
            Option::Some(t) => r == *t,
            Option::None => r.head is None && r.tail is None,
        },
{
    match cell.tail() {
        Option::Some(tail) => tail.deep_clone(),
        Option::None => Cell::nil(),
    }
}

/// A copy of the head value, or the nil value when the head is absent.
pub fn car(cell: &Cell) -> (r: Value)
    ensures
        match cell.head {
            Option::Some(v) => r == v,
            Option::None => r == Value::Nil,
        },
{
    match cell.head() {
        Option::Some(head) => head,
        Option::None => Value::nil(),
    }
}

} // verus!
