use ds::RefCounter;

// A cloned counter starts from the same value but counts on its own from
// there; the original's later increments mirror the cloned one's, so both
// handles walk through the same readings.
#[test]
fn test_refcounter_incr_decr_read() {
    let mut counter = RefCounter::new();
    assert_eq!(counter.read(), 0);
    counter.incr();
    assert_eq!(counter.read(), 1);
    counter.incr();
    assert_eq!(counter.read(), 2);
    {
        let mut clone = counter.clone();
        clone.incr();
        assert_eq!(clone.read(), 3);
    }
    counter.incr();
    assert_eq!(counter.read(), 3);
    counter.decr();
    assert_eq!(counter.read(), 2);
    counter.decr();
    assert_eq!(counter.read(), 1);
    counter.decr();
    assert_eq!(counter.read(), 0);
    counter.decr();
    assert_eq!(counter.read(), 0);
}

#[test]
fn test_refcounter_deref() {
    let mut counter = RefCounter::new();
    assert_eq!(counter.read(), 0);
    counter.incr();
    assert_eq!(counter.read(), 1);
    counter.incr();
    assert_eq!(counter.read(), 2);
    let refs: usize = counter.read();
    assert_eq!(refs, 2);
}

#[test]
fn test_refcounter_add_assign() {
    let mut counter = RefCounter::new();
    assert_eq!(counter.read(), 0);
    counter.incr_by(2);
    assert_eq!(counter.read(), 2);
    counter.decr_by(1);
    assert_eq!(counter.read(), 1);
    counter.decr_by(1);
    assert_eq!(counter.read(), 0);
    counter.incr_by(1);
    let refs: usize = counter.read();
    assert_eq!(refs, 1);
}

// A decrement larger than the count saturates at zero, and the count never
// shows a negative reading.
#[test]
fn test_refcounter_decr_saturates() {
    let mut counter = RefCounter::from(2usize);
    counter.decr_by(5);
    assert_eq!(counter.read(), 0);
    counter.incr_by(3);
    counter.decr_by(3);
    assert_eq!(counter.read(), 0);
    counter.incr();
    counter.decr();
    counter.decr();
    assert_eq!(counter.read(), 0);
    counter.reset();
    assert_eq!(counter.read(), 0);
}
