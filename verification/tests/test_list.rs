use ds::list::{car, cdr};
use ds::List;
use std::rc::Rc;

#[test]
fn list_new() {
    let result = List::new(1);
    assert_eq!(result, List::Head(Some(1)));
}

#[test]
fn list_add() {
    let head = List::new(1);
    let result = head.add(2);
    assert_eq!(result, List::Tail((1, Rc::new(List::Head(Some(2))))));
}

#[test]
fn list_car() {
    let result = List::new(1).add(2);
    assert_eq!(result, List::Tail((1, Rc::new(List::Head(Some(2))))));
    assert_eq!(car(result), Some(1));
}

#[test]
fn list_cdr() {
    let result = List::new(1).add(2);
    assert_eq!(result, List::Tail((1, Rc::new(List::Head(Some(2))))));
    assert_eq!(cdr(result), Some(2));
}

#[test]
fn list_append() {
    let head = List::new(1);
    let tail = List::new(2).add(3);
    let result = head.append(tail);
    assert_eq!(
        result,
        List::Tail((1, Rc::new(List::Tail((2, Rc::new(List::Head(Some(3))))))))
    );
    let result = head.append(List::new(2));
    assert_eq!(result, List::Tail((1, Rc::new(List::Head(Some(2))))));
}

#[test]
fn list_len() {
    let head = List::new(1);
    assert_eq!(head.len(), 1);
    let tail = List::new(2).add(3);
    assert_eq!(tail.len(), 2);
    let result = head.append(tail);
    assert_eq!(result.len(), 3);
}

#[test]
fn list_empty_head() {
    let empty: List<i32> = List::Head(None);
    assert_eq!(car(empty), None);
    let empty: List<i32> = List::Head(None);
    assert_eq!(cdr(empty), None);
    let empty: List<i32> = List::Head(None);
    assert_eq!(empty.len(), 1);
    let grown = empty.add(7);
    assert_eq!(grown, List::Head(Some(7)));
}
