use ds::{Cell, Value};

#[test]
fn test_cell_from_u8() {
    let cell = Cell::from(0xF1u8);
    let head = cell.head();
    assert_eq!(head, Some(Value::Byte(0xF1u8)));
}

#[test]
fn test_cell_from_str() {
    let cell = Cell::from("head");
    let head = cell.head();
    assert_eq!(head, Some(Value::from("head")));
}

#[test]
fn test_cell_from_u64() {
    let cell = Cell::from(0xBEEFu64);
    assert_eq!(cell.head(), Some(Value::UInt(0xBEEF)));
}

#[test]
fn test_cell_from_i64() {
    let cell = Cell::from(47i64);
    assert_eq!(cell.head(), Some(Value::Int(47)));
}

#[test]
fn test_cell_from_value() {
    let cell = Cell::from(Value::Nil);
    assert_eq!(cell.head(), Some(Value::Nil));
    let cell = Cell::from(Value::from("string"));
    assert_eq!(cell.head(), Some(Value::from("string")));
    let cell = Cell::new(Value::from(0xF1u8));
    let head = cell.head();
    assert_eq!(head, Some(Value::Byte(0xF1u8)));
}

// A small u64 narrows to a byte; 255 and up stays a u64.  A non-negative i32
// widens to a u64, a negative one to an i64.
#[test]
fn test_cell_conversion_boundaries() {
    let cell = Cell::from(254u64);
    assert_eq!(cell.head(), Some(Value::Byte(254u8)));
    let cell = Cell::from(255u64);
    assert_eq!(cell.head(), Some(Value::UInt(255)));
    let cell = Cell::from(0i32);
    assert_eq!(cell.head(), Some(Value::UInt(0)));
    let cell = Cell::from(-7i32);
    assert_eq!(cell.head(), Some(Value::Int(-7)));
}
