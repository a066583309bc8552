use vstd::prelude::*;

verus! {

/// A manually driven reference counter.  The null state (no backing storage)
/// reads as zero; the first increment brings the backing storage into
/// existence.  Decrements saturate at zero and never fail.
#[derive(Debug, Clone, Copy)]
pub struct RefCounter {
    pub count: usize,
    pub allocated: bool,
}

impl RefCounter {
    /// The value the counter reads as: zero while unallocated.
    pub open spec fn spec_read(self) -> usize {
        if self.allocated {
            self.count
        } else {
            0
        }
    }

    /// The null counter: no backing storage, reads as zero.
    pub fn new() -> (r: RefCounter)
        ensures
            !r.allocated,
            r.spec_read() == 0,
    {
        RefCounter { count: 0, allocated: false }
    }

    /// A counter that starts out at `refs`, with backing storage in place.
    pub fn from_count(refs: usize) -> (r: RefCounter)
        ensures
            r.allocated,
            r.spec_read() == refs,
    {
        RefCounter { count: refs, allocated: true }
    }

    /// Sets the counter back to zero, keeping (or creating) its backing
    /// storage.
    pub fn reset(&mut self)
        ensures
            final(self).allocated,
            final(self).spec_read() == 0,
    {
        self.count = 0;
        self.allocated = true;
    }

    /// Counts one more reference.
    pub fn incr(&mut self)
        requires
            old(self).spec_read() < usize::MAX,
        ensures
            final(self).allocated,
            final(self).spec_read() == old(self).spec_read() + 1,
    {
        self.incr_by(1);
    }

    /// Counts `by` more references.
    pub fn incr_by(&mut self, by: usize)
        requires
            old(self).spec_read() + by <= usize::MAX,
        ensures
            final(self).allocated,
            final(self).spec_read() == old(self).spec_read() + by,
    {
        let current = self.read();
        self.count = current + by;
        self.allocated = true;
    }

    /// Releases one reference; a counter already at zero stays at zero.
    pub fn decr(&mut self)
        ensures
            final(self).allocated,
            final(self).spec_read() == if old(self).spec_read() >= 1 {
                old(self).spec_read() - 1
            } else {
                0int
            },
    {
        self.decr_by(1);
    }

    /// Releases `by` references; the count saturates at zero, so a
    /// decrement larger than the count empties it.
    pub fn decr_by(&mut self, by: usize)
        ensures
            final(self).allocated,
            final(self).spec_read() == if old(self).spec_read() >= by {
                old(self).spec_read() - by
            } else {
                0int
            },
    {
        let current = self.read();
        if current >= by {
            self.count = current - by;
        } else {
            self.count = 0;
        }
        self.allocated = true;
    }

    /// The current count: zero while unallocated.
    pub fn read(&self) -> (r: usize)
        ensures
            r == self.spec_read(),
    {
        if self.allocated {
            self.count
        } else {
            0
        }
    }

    /// Returns the counter to its null state.
    pub fn dealloc(&mut self)
        ensures
            !final(self).allocated,
            final(self).spec_read() == 0,
    {
        self.count = 0;
        self.allocated = false;
    }
}

impl From<usize> for RefCounter {
    fn from(refs: usize) -> (r: RefCounter) {
        RefCounter::from_count(refs)
    }
}

impl vstd::std_specs::convert::FromSpecImpl<usize> for RefCounter {
    open spec fn obeys_from_spec() -> bool {
        true
    }

    open spec fn from_spec(refs: usize) -> RefCounter {
        RefCounter { count: refs, allocated: true }
    }
}

} // verus!
