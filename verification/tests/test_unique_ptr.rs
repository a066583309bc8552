use ds::{UniquePointer, Value};

pub struct Data {
    pub value: UniquePointer<Value>,
}

// An aliasing copy shares the simulated address and counts one more
// reference on both handles; each handle's stored value is read through it.
#[test]
fn test_unique_pointer_clone() {
    let mut data = Data { value: UniquePointer::from(Value::from("string")) };
    let mut clone = Data { value: data.value.copy() };

    assert_eq!(data.value.is_null(), false);
    assert_eq!(data.value.is_allocated(), true);
    assert!(data.value.addr() > 0, "address should not be null");
    assert_eq!(data.value.is_written(), true);
    assert_eq!(data.value.inner_mut(), &mut Value::from("string"));
    assert_eq!(data.value.read(), Value::from("string"));
    assert_eq!(data.value.as_ref(), Some(&Value::from("string")));
    assert_eq!(data.value.as_mut(), Some(&mut Value::from("string")));

    assert_eq!(clone.value.is_null(), false);
    assert!(clone.value.addr() > 0, "address should not be null");
    assert_eq!(clone.value.addr(), data.value.addr());
    assert_eq!(clone.value.is_copy(), true);
    assert_eq!(clone.value.is_written(), true);
    assert_eq!(clone.value.inner_mut(), &mut Value::from("string"));
    assert_eq!(clone.value.read(), Value::from("string"));
    assert_eq!(clone.value.as_ref(), Some(&Value::from("string")));
    assert_eq!(clone.value.as_mut(), Some(&mut Value::from("string")));

    data.value.write(Value::from("updated"));

    assert_eq!(data.value.is_null(), false);
    assert_eq!(data.value.is_allocated(), true);
    assert!(data.value.addr() > 0, "address should not be null");
    assert_eq!(data.value.is_written(), true);
    assert_eq!(data.value.inner_mut(), &mut Value::from("updated"));
    assert_eq!(data.value.read(), Value::from("updated"));
    assert_eq!(data.value.as_ref(), Some(&Value::from("updated")));
    assert_eq!(data.value.as_mut(), Some(&mut Value::from("updated")));

    // the copy carries its own deep copy of the value, so it keeps the
    // original contents
    assert_eq!(clone.value.read(), Value::from("string"));
}

#[test]
fn test_unique_pointer_null() {
    let mut data = Data { value: UniquePointer::null() };

    assert_eq!(data.value.is_null(), true);
    assert_eq!(data.value.addr(), 0);
    assert_eq!(data.value.refs(), 0);
    assert_eq!(data.value.is_written(), false);
    assert_eq!(data.value.is_allocated(), false);
    assert_eq!(data.value.as_ref(), None);
}

#[test]
fn test_unique_pointer_write() {
    let mut data = Data { value: UniquePointer::null() };

    data.value.write(Value::from("string"));

    assert_eq!(data.value.is_null(), false);
    assert_eq!(data.value.is_allocated(), true);
    assert!(data.value.addr() > 0, "address should not be null");
    assert_eq!(data.value.is_written(), true);
    assert_eq!(data.value.inner_ref(), &Value::from("string"));
    assert_eq!(data.value.read(), Value::from("string"));
    assert_eq!(data.value.as_ref(), Some(&Value::from("string")));
    assert_eq!(data.value.as_mut(), Some(&mut Value::from("string")));
}

#[test]
fn test_unique_pointer_write_ref_mut() {
    let mut data = Data { value: UniquePointer::null() };

    data.value.write_ref_mut(&mut Value::from("string"));

    assert_eq!(data.value.is_null(), false);
    assert_eq!(data.value.is_allocated(), true);
    assert!(data.value.addr() > 0, "address should not be null");
    assert_eq!(data.value.is_written(), true);
    assert_eq!(data.value.inner_ref(), &Value::from("string"));
    assert_eq!(data.value.read(), Value::from("string"));
    assert_eq!(data.value.as_ref(), Some(&Value::from("string")));
    assert_eq!(data.value.as_mut(), Some(&mut Value::from("string")));
}

#[test]
fn test_unique_pointer_write_ref() {
    let mut data = Data { value: UniquePointer::null() };

    data.value.write_ref(&Value::from("string"));

    assert_eq!(data.value.is_null(), false);
    assert_eq!(data.value.is_allocated(), true);
    assert!(data.value.addr() > 0, "address should not be null");
    assert_eq!(data.value.is_written(), true);
    assert_eq!(data.value.inner_ref(), &Value::from("string"));
    assert_eq!(data.value.read(), Value::from("string"));
    assert_eq!(data.value.as_ref(), Some(&Value::from("string")));
    assert_eq!(data.value.as_mut(), Some(&mut Value::from("string")));
}

#[test]
fn test_unique_pointer_from_value() {
    let mut data = Data { value: UniquePointer::from(Value::from("string")) };

    assert_eq!(data.value.is_null(), false);
    assert_eq!(data.value.is_allocated(), true);
    assert!(data.value.addr() > 0, "address should not be null");
    assert_eq!(data.value.is_written(), true);
    assert_eq!(data.value.inner_ref(), &Value::from("string"));
    assert_eq!(data.value.read(), Value::from("string"));
    assert_eq!(data.value.as_ref(), Some(&Value::from("string")));
    assert_eq!(data.value.as_mut(), Some(&mut Value::from("string")));
}

#[test]
fn test_unique_pointer_from_ref_clone() {
    let mut data = Data { value: UniquePointer::from_ref(&Value::from("string")) };

    assert_eq!(data.value.is_null(), false);

    assert_eq!(data.value.is_written(), true);
    assert!(data.value.addr() > 0, "address should not be null");
    assert_eq!(data.value.inner_ref(), &Value::from("string"));
    assert_eq!(data.value.read(), Value::from("string"));
    assert_eq!(data.value.as_ref(), Some(&Value::from("string")));
    assert_eq!(data.value.as_mut(), Some(&mut Value::from("string")));
}

#[test]
fn test_unique_pointer_from_ref_copy() {
    let mut value: UniquePointer<u8> = UniquePointer::from_ref(&0xF1);

    assert_eq!(value.is_null(), false);
    assert_eq!(value.is_allocated(), true);
    assert!(value.addr() > 0, "address should not be null");
    assert_eq!(value.is_written(), true);
    assert_eq!(value.inner_ref(), &0xF1);
    assert_eq!(value.read(), 0xF1);
    assert_eq!(value.as_ref(), Some(&0xF1));
    assert_eq!(value.as_mut(), Some(&mut 0xF1));
}

#[test]
fn test_unique_pointer_from_mut_clone() {
    let mut value: UniquePointer<Value> = UniquePointer::from_ref_mut(&mut Value::from("string"));

    assert_eq!(value.is_null(), false);
    assert_eq!(value.is_allocated(), true);
    assert!(value.addr() > 0, "address should not be null");
    assert_eq!(value.is_written(), true);
    assert_eq!(value.inner_ref(), &Value::from("string"));

    assert_eq!(value.read(), Value::from("string"));
    assert_eq!(value.as_ref(), Some(&Value::from("string")));
    assert_eq!(value.as_mut(), Some(&mut Value::from("string")));
}

// Reads count as new logical aliases: every `read`, and every successful
// `as_ref`/`as_mut`, raises the reference count by one.
#[test]
fn test_unique_pointer_inner_mut() {
    let mut data = Data { value: UniquePointer::from(&mut Value::from("string")) };

    assert_eq!(data.value.is_null(), false);
    assert_eq!(data.value.is_allocated(), true);
    assert!(data.value.addr() > 0, "address should not be null");
    assert_eq!(data.value.is_written(), true);
    assert_eq!(data.value.inner_mut(), &mut Value::from("string"));
    assert_eq!(data.value.refs(), 0);
    {
        let value = data.value.read();
        assert_eq!(value, Value::from("string"));
        assert_eq!(data.value.refs(), 1);
    }
    assert_eq!(data.value.refs(), 1);
    {
        let value = data.value.as_ref();
        assert_eq!(value, Some(&Value::from("string")));
        assert_eq!(data.value.refs(), 2);
    }
    assert_eq!(data.value.refs(), 2);

    assert_eq!(data.value.read(), Value::from("string"));
    assert_eq!(data.value.refs(), 3);
    assert_eq!(data.value.as_ref(), Some(&Value::from("string")));
    assert_eq!(data.value.as_mut(), Some(&mut Value::from("string")));
    assert_eq!(data.value.refs(), 5);
}

#[test]
fn test_unique_pointer_from_ref_mut() {
    let mut data = Data { value: UniquePointer::from(&mut Value::from("string")) };

    assert_eq!(data.value.is_null(), false);
    assert_eq!(data.value.is_allocated(), true);
    assert!(data.value.addr() > 0, "address should not be null");
    assert_eq!(data.value.is_written(), true);
    assert_eq!(data.value.inner_ref(), &Value::from("string"));
    assert_eq!(data.value.read(), Value::from("string"));
    assert_eq!(data.value.as_ref(), Some(&Value::from("string")));
    assert_eq!(data.value.as_mut(), Some(&mut Value::from("string")));
}

#[test]
fn test_unique_pointer_from_ref() {
    let mut data = Data { value: UniquePointer::from(&Value::from("string")) };

    assert_eq!(data.value.is_null(), false);
    assert_eq!(data.value.is_allocated(), true);
    assert!(data.value.addr() > 0, "address should not be null");
    assert_eq!(data.value.is_written(), true);
    assert_eq!(data.value.inner_ref(), &Value::from("string"));
    assert_eq!(data.value.read(), Value::from("string"));
    assert_eq!(data.value.as_ref(), Some(&Value::from("string")));
    assert_eq!(data.value.as_mut(), Some(&mut Value::from("string")));
}

// Soft deallocation only gives a reference back while any are outstanding;
// the physical free happens at zero, and resets the pointer to null.
#[test]
fn test_unique_pointer_dealloc() {
    let mut p: UniquePointer<Value> = UniquePointer::from(Value::from("string"));
    let _ = p.read();
    let _ = p.read();
    assert_eq!(p.refs(), 2);
    p.dealloc(true);
    assert_eq!(p.refs(), 1);
    assert_eq!(p.is_null(), false);
    p.dealloc(true);
    assert_eq!(p.refs(), 0);
    assert_eq!(p.is_null(), false);
    p.dealloc(true);
    assert_eq!(p.is_null(), true);
    assert_eq!(p.is_allocated(), false);
    assert_eq!(p.refs(), 0);
    // deallocating the null pointer does nothing
    p.dealloc(false);
    assert_eq!(p.is_null(), true);
}
