use vstd::prelude::*;

use crate::deep_clone::DeepClone;
use crate::refcounter::RefCounter;

verus! {

/// A model of a nullable, manually managed smart pointer.  A handle owns at
/// most one value; `addr` stands in for the machine address and is zero
/// exactly in the null state.  A handle flagged `is_copy` is an alias made by
/// `copy` and is never the one that finally frees the allocation.
#[derive(Debug)]
pub struct UniquePointer<T> {
    pub data: Option<T>,
    pub addr: usize,
    pub orig_addr: usize,
    pub refs: RefCounter,
    pub allocated: bool,
    pub written: bool,
    pub is_copy: bool,
}

impl<T> UniquePointer<T> {
    /// The pointer's internal consistency: null means nothing is allocated or
    /// stored; a written pointer is allocated and holds a value.
    pub open spec fn well_formed(self) -> bool {
        &&& (self.addr == 0 <==> !self.allocated)
        &&& (self.written ==> self.allocated)
        &&& (self.data is Some <==> self.written)
    }

    /// The null pointer: unallocated, unwritten, zero references.
    pub fn null() -> (r: UniquePointer<T>)
        ensures
            r.well_formed(),
            r.addr == 0,
            r.orig_addr == 0,
            !r.allocated,
            !r.written,
            !r.is_copy,
            r.data is None,
            r.refs.spec_read() == 0,
    {
        UniquePointer {
            data: Option::None,
            addr: 0,
            orig_addr: 0,
            refs: RefCounter::new(),
            allocated: false,
            written: false,
            is_copy: false,
        }
    }

    /// The simulated address; zero exactly on the null pointer.
    pub fn addr(&self) -> (r: usize)
        ensures
            r == self.addr,
    {
        self.addr
    }

    /// The simulated address recorded when the stored value was written.
    pub fn orig_addr(&self) -> (r: usize)
        ensures
            r == self.orig_addr,
    {
        self.orig_addr
    }

    /// The current reference count.
    pub fn refs(&self) -> (r: usize)
        ensures
            r == self.refs.spec_read(),
    {
        self.refs.read()
    }

    /// True on the null pointer.
    pub fn is_null(&self) -> (r: bool)
        ensures
            r == (self.addr == 0),
    {
        self.addr == 0
    }

    /// True away from the null pointer.
    pub fn is_not_null(&self) -> (r: bool)
        ensures
            r == (self.addr != 0),
    {
        !self.is_null()
    }

    /// True when this handle is not an alias made by `copy`.
    pub fn is_not_copy(&self) -> (r: bool)
        ensures
            r == !self.is_copy,
    {
        !self.is_copy
    }

    /// True when this handle may physically free its allocation: it is
    /// allocated, it is not an alias, and it is not null.
    pub fn can_dealloc(&self) -> (r: bool)
        ensures
            r == (self.allocated && !self.is_copy && self.addr != 0),
    {
        self.allocated && self.is_not_copy() && self.is_not_null()
    }

    /// True once storage is allocated.
    pub fn is_allocated(&self) -> (r: bool)
        ensures
            r == (self.addr != 0 && self.allocated),
    {
        let r = self.is_not_null();
        r && self.allocated
    }

    /// True once a value has been written.
    pub fn is_written(&self) -> (r: bool)
        ensures
            r == (self.addr != 0 && self.allocated && self.written),
    {
        let r = self.is_allocated();
        r && self.written
    }

    /// True when this handle is an alias made by `copy`.
    pub fn is_copy(&self) -> (r: bool)
        ensures
            r == self.is_copy,
    {
        self.is_copy
    }

    /// Makes storage available, force-freeing any previous allocation first
    /// so that re-allocating never leaks.  The fresh storage holds no value.
    pub fn allocate(&mut self)
        requires
            old(self).well_formed(),
        ensures
            final(self).well_formed(),
            final(self).allocated,
            !final(self).written,
            final(self).data is None,
            final(self).addr != 0,
            final(self).orig_addr == old(self).orig_addr,
            final(self).is_copy == old(self).is_copy,
            final(self).refs.spec_read() == if old(self).allocated {
                0
            } else {
                old(self).refs.spec_read()
            },
    {
        if self.is_allocated() {
            self.free();
        }
        self.data = Option::None;
        self.addr = 1;
        self.allocated = true;
        self.written = false;
    }

    /// Stores `data`, allocating first (and force-freeing any previous
    /// allocation).  Records a non-zero diagnostic source address.
    pub fn write(&mut self, data: T)
        requires
            old(self).well_formed(),
        ensures
            final(self).well_formed(),
            final(self).allocated,
            final(self).written,
            final(self).addr != 0,
            final(self).orig_addr != 0,
            final(self).data == Some(data),
            final(self).is_copy == old(self).is_copy,
            final(self).refs.spec_read() == if old(self).allocated {
                0
            } else {
                old(self).refs.spec_read()
            },
    {
        self.allocate();
        self.data = Option::Some(data);
        self.written = true;
        self.orig_addr = 1;
    }

    /// A read-only borrow of the stored value; the reference count does not
    /// move.
    pub fn peek_ref(&self) -> (r: &T)
        requires
            self.written,
            self.data is Some,
        ensures
            *r == self.data.unwrap(),
    {
        match &self.data {
            Option::Some(v) => v,
            Option::None => unreached(),
        }
    }

    /// A read-only borrow of the stored value.
    pub fn inner_ref(&self) -> (r: &T)
        requires
            self.written,
            self.data is Some,
        ensures
            *r == self.data.unwrap(),
    {
        self.peek_ref()
    }

    /// A mutable borrow of the stored value; the pointer afterwards holds
    /// whatever the caller leaves behind the borrow.
    pub fn peek_mut(&mut self) -> (r: &mut T)
        requires
            old(self).written,
            old(self).data is Some,
        ensures
            *r == old(self).data.unwrap(),
            final(self).data == Some(*final(r)),
            final(self).addr == old(self).addr,
            final(self).orig_addr == old(self).orig_addr,
            final(self).refs == old(self).refs,
            final(self).allocated == old(self).allocated,
            final(self).written == old(self).written,
            final(self).is_copy == old(self).is_copy,
    {
        match &mut self.data {
            Option::Some(v) => v,
            Option::None => unreached(),
        }
    }

    /// A mutable borrow of the stored value.
    pub fn inner_mut(&mut self) -> (r: &mut T)
        requires
            old(self).written,
            old(self).data is Some,
        ensures
            *r == old(self).data.unwrap(),
            final(self).data == Some(*final(r)),
            final(self).addr == old(self).addr,
            final(self).orig_addr == old(self).orig_addr,
            final(self).refs == old(self).refs,
            final(self).allocated == old(self).allocated,
            final(self).written == old(self).written,
            final(self).is_copy == old(self).is_copy,
    {
        self.peek_mut()
    }

    /// `Some` borrow of the stored value when one was written, `None`
    /// otherwise; a successful access counts one more reference.
    pub fn as_ref(&mut self) -> (r: Option<&T>)
        requires
            old(self).well_formed(),
            old(self).refs.spec_read() < usize::MAX,
        ensures
            final(self).well_formed(),
            r is Some <==> (old(self).addr != 0 && old(self).allocated && old(self).written),
            r matches Some(v) ==> *v == old(self).data.unwrap(),
            final(self).data == old(self).data,
            final(self).addr == old(self).addr,
            final(self).orig_addr == old(self).orig_addr,
            final(self).allocated == old(self).allocated,
            final(self).written == old(self).written,
            final(self).is_copy == old(self).is_copy,
            final(self).refs.spec_read() == old(self).refs.spec_read() + (
            if old(self).addr != 0 && old(self).allocated && old(self).written {
                1int
            } else {
                0int
            }),
    {
        if self.is_written() {
            self.refs.incr();
            Option::Some(self.peek_ref())
        } else {
            Option::None
        }
    }

    /// `Some` mutable borrow of the stored value when one was written, `None`
    /// otherwise; a successful access counts one more reference.
    pub fn as_mut(&mut self) -> (r: Option<&mut T>)
        requires
            old(self).well_formed(),
            old(self).refs.spec_read() < usize::MAX,
        ensures
            r is Some <==> (old(self).addr != 0 && old(self).allocated && old(self).written),
            r matches Some(v) ==> *v == old(self).data.unwrap() && final(self).data == Some(
                *final(v),
            ),
            r is None ==> final(self).data == old(self).data,
            final(self).well_formed(),
            final(self).addr == old(self).addr,
            final(self).orig_addr == old(self).orig_addr,
            final(self).allocated == old(self).allocated,
            final(self).written == old(self).written,
            final(self).is_copy == old(self).is_copy,
            final(self).refs.spec_read() == old(self).refs.spec_read() + (
            if old(self).addr != 0 && old(self).allocated && old(self).written {
                1int
            } else {
                0int
            }),
    {
        if self.is_written() {
            self.refs.incr();
            Option::Some(self.peek_mut())
        } else {
            Option::None
        }
    }

    /// Releases the pointer.  On the null pointer this does nothing.  A soft
    /// release with references outstanding only gives one reference back;
    /// otherwise the allocation is freed and the pointer returns to null.
    pub fn dealloc(&mut self, soft: bool)
        requires
            old(self).well_formed(),
        ensures
            final(self).well_formed(),
            old(self).addr == 0 ==> *final(self) == *old(self),
            old(self).addr != 0 && soft && old(self).refs.spec_read() > 0 ==> final(self).data
                == old(self).data && final(self).addr == old(self).addr && final(self).orig_addr
                == old(self).orig_addr && final(self).allocated == old(self).allocated && final(self).written == old(self).written && final(self).is_copy == old(self).is_copy && final(self).refs.spec_read() == old(self).refs.spec_read() - 1,
            old(self).addr != 0 && !(soft && old(self).refs.spec_read() > 0) ==> final(self).data
                is None && final(self).addr == 0 && !final(self).allocated && !final(self).written
                && final(self).refs.spec_read() == 0 && final(self).is_copy == old(self).is_copy
                && final(self).orig_addr == old(self).orig_addr,
    {
        if self.is_null() {
            return ;
        }
        let refs = self.refs.read();
        if soft && refs > 0 {
            self.refs.decr();
        } else {
            self.free();
        }
    }

    /// Returns the pointer to the null state, dropping any stored value and
    /// the reference count's backing storage.
    fn free(&mut self)
        ensures
            final(self).data is None,
            final(self).addr == 0,
            !final(self).allocated,
            !final(self).written,
            final(self).refs.spec_read() == 0,
            final(self).is_copy == old(self).is_copy,
            final(self).orig_addr == old(self).orig_addr,
    {
        self.data = Option::None;
        self.addr = 0;
        self.allocated = false;
        self.written = false;
        self.refs.dealloc();
    }
}

impl<T: DeepClone> UniquePointer<T> {
    /// A pointer holding a copy of the value behind `reference`.
    pub fn from_ref(reference: &T) -> (r: UniquePointer<T>)
        ensures
            r.well_formed(),
            r.allocated,
            r.written,
            r.addr != 0,
            r.orig_addr != 0,
            !r.is_copy,
            r.data == Some(*reference),
            r.refs.spec_read() == 0,
    {
        let mut up = UniquePointer::<T>::null();
        up.write_ref(reference);
        up
    }

    /// A pointer holding a copy of the value behind `mutable_reference`.
    pub fn from_ref_mut(mutable_reference: &mut T) -> (r: UniquePointer<T>)
        ensures
            r.well_formed(),
            r.allocated,
            r.written,
            r.addr != 0,
            r.orig_addr != 0,
            !r.is_copy,
            r.data == Some(*old(mutable_reference)),
            *final(mutable_reference) == *old(mutable_reference),
            r.refs.spec_read() == 0,
    {
        let mut up = UniquePointer::<T>::null();
        up.write_ref_mut(mutable_reference);
        up
    }

    /// Stores a copy of the value behind a read-only reference.
    pub fn write_ref(&mut self, data: &T)
        requires
            old(self).well_formed(),
        ensures
            final(self).well_formed(),
            final(self).allocated,
            final(self).written,
            final(self).addr != 0,
            final(self).orig_addr != 0,
            final(self).data == Some(*data),
            final(self).is_copy == old(self).is_copy,
            final(self).refs.spec_read() == if old(self).allocated {
                0
            } else {
                old(self).refs.spec_read()
            },
    {
        self.write(data.deep_clone());
    }

    /// Stores a copy of the value behind a mutable reference, leaving the
    /// referenced value as it was.
    pub fn write_ref_mut(&mut self, data: &mut T)
        requires
            old(self).well_formed(),
        ensures
            final(self).well_formed(),
            final(self).allocated,
            final(self).written,
            final(self).addr != 0,
            final(self).orig_addr != 0,
            final(self).data == Some(*old(data)),
            *final(data) == *old(data),
            final(self).is_copy == old(self).is_copy,
            final(self).refs.spec_read() == if old(self).allocated {
                0
            } else {
                old(self).refs.spec_read()
            },
    {
        let v = (&*data).deep_clone();
        self.write(v);
    }

    /// An aliasing handle built from parts: it carries a copy of the value
    /// behind `data`, starts its count at `refs`, records `orig_addr`, and is
    /// flagged as a copy so that it never physically frees the allocation.
    pub fn copy_from_ref(data: &T, refs: usize, orig_addr: usize) -> (r: UniquePointer<T>)
        ensures
            r.data == Some(*data),
            r.addr != 0,
            r.orig_addr == orig_addr,
            r.refs.spec_read() == refs,
            r.allocated,
            r.written,
            r.is_copy,
            r.well_formed(),
    {
        UniquePointer {
            data: Option::Some(data.deep_clone()),
            addr: 1,
            orig_addr,
            refs: RefCounter::from_count(refs),
            allocated: true,
            written: true,
            is_copy: true,
        }
    }

    /// Reads the stored value out as a copy; every read counts one more
    /// logical alias.
    pub fn read(&mut self) -> (r: T)
        requires
            old(self).well_formed(),
            old(self).addr != 0 && old(self).allocated && old(self).written,
            old(self).refs.spec_read() < usize::MAX,
        ensures
            final(self).well_formed(),
            r == old(self).data.unwrap(),
            final(self).data == old(self).data,
            final(self).addr == old(self).addr,
            final(self).orig_addr == old(self).orig_addr,
            final(self).allocated == old(self).allocated,
            final(self).written == old(self).written,
            final(self).is_copy == old(self).is_copy,
            final(self).refs.spec_read() == old(self).refs.spec_read() + 1,
    {
        self.refs.incr();
        self.peek_ref().deep_clone()
    }

    /// An aliasing copy of the pointer: the new handle carries the same
    /// (copied) contents and simulated addresses, is flagged as a copy, and
    /// both handles count the one new alias.
    pub fn copy(&mut self) -> (r: UniquePointer<T>)
        requires
            old(self).well_formed(),
            old(self).refs.spec_read() < usize::MAX,
        ensures
            final(self).well_formed(),
            r.well_formed(),
            final(self).data == old(self).data,
            final(self).addr == old(self).addr,
            final(self).orig_addr == old(self).orig_addr,
            final(self).allocated == old(self).allocated,
            final(self).written == old(self).written,
            final(self).is_copy == old(self).is_copy,
            final(self).refs.spec_read() == old(self).refs.spec_read() + 1,
            r.data == old(self).data,
            r.addr == old(self).addr,
            r.orig_addr == old(self).orig_addr,
            r.allocated == old(self).allocated,
            r.written == old(self).written,
            r.is_copy,
            r.refs.spec_read() == old(self).refs.spec_read() + 1,
    {
        self.refs.incr();
        let data = match &self.data {
            Option::Some(v) => Option::Some(v.deep_clone()),
            Option::None => Option::None,
        };
        UniquePointer {
            data,
            addr: self.addr,
            orig_addr: self.orig_addr,
            refs: RefCounter::from_count(self.refs.read()),
            allocated: self.allocated,
            written: self.written,
            is_copy: true,
        }
    }
}

/// An aliasing copy counts one new reference on both handles, and one soft
/// release of each handle brings both counts back to where the original
/// stood; reference counts never go below zero.  `owner1` and `alias1` are
/// the two handles right after `copy`, `owner2` and `alias2` the same handles
/// after one soft `dealloc` each.
pub proof fn lemma_copy_soft_release<T>(
    before: UniquePointer<T>,
    owner1: UniquePointer<T>,
    alias1: UniquePointer<T>,
    owner2: UniquePointer<T>,
    alias2: UniquePointer<T>,
)
    requires
        before.well_formed(),
        before.addr != 0,
        before.refs.spec_read() < usize::MAX,
        owner1.refs.spec_read() == before.refs.spec_read() + 1,
        owner1.addr == before.addr,
        alias1.refs.spec_read() == before.refs.spec_read() + 1,
        alias1.addr == before.addr,
        alias1.is_copy,
        owner2.refs.spec_read() == owner1.refs.spec_read() - 1,
        alias2.refs.spec_read() == alias1.refs.spec_read() - 1,
    ensures
        owner1.refs.spec_read() > 0,
        alias1.refs.spec_read() > 0,
        owner2.refs.spec_read() == before.refs.spec_read(),
        alias2.refs.spec_read() == before.refs.spec_read(),
        owner2.refs.spec_read() >= 0,
        alias2.refs.spec_read() >= 0,
{
}

impl<T> From<T> for UniquePointer<T> {
    fn from(data: T) -> (r: UniquePointer<T>) {
        UniquePointer {
            data: Option::Some(data),
            addr: 1,
            orig_addr: 1,
            refs: RefCounter { count: 0, allocated: false },
            allocated: true,
            written: true,
            is_copy: false,
        }
    }
}

impl<'a, T: DeepClone> From<&'a T> for UniquePointer<T> {
    fn from(data: &'a T) -> (r: UniquePointer<T>) {
        UniquePointer {
            data: Option::Some(data.deep_clone()),
            addr: 1,
            orig_addr: 1,
            refs: RefCounter { count: 0, allocated: false },
            allocated: true,
            written: true,
            is_copy: false,
        }
    }
}

impl<'a, T: DeepClone> vstd::std_specs::convert::FromSpecImpl<&'a T> for UniquePointer<T> {
    open spec fn obeys_from_spec() -> bool {
        true
    }

    open spec fn from_spec(data: &'a T) -> UniquePointer<T> {
        UniquePointer {
            data: Some(*data),
            addr: 1,
            orig_addr: 1,
            refs: RefCounter { count: 0, allocated: false },
            allocated: true,
            written: true,
            is_copy: false,
        }
    }
}

impl<'a, T: DeepClone> From<&'a mut T> for UniquePointer<T> {
    fn from(data: &'a mut T) -> (r: UniquePointer<T>) {
        UniquePointer {
            data: Option::Some((&*data).deep_clone()),
            addr: 1,
            orig_addr: 1,
            refs: RefCounter { count: 0, allocated: false },
            allocated: true,
            written: true,
            is_copy: false,
        }
    }
}

impl<'a, T: DeepClone> vstd::std_specs::convert::FromSpecImpl<&'a mut T> for UniquePointer<T> {
    open spec fn obeys_from_spec() -> bool {
        true
    }

    open spec fn from_spec(data: &'a mut T) -> UniquePointer<T> {
        UniquePointer {
            data: Some(*data),
            addr: 1,
            orig_addr: 1,
            refs: RefCounter { count: 0, allocated: false },
            allocated: true,
            written: true,
            is_copy: false,
        }
    }
}

impl<T> vstd::std_specs::convert::FromSpecImpl<T> for UniquePointer<T> {
    open spec fn obeys_from_spec() -> bool {
        true
    }

    open spec fn from_spec(data: T) -> UniquePointer<T> {
        UniquePointer {
            data: Some(data),
            addr: 1,
            orig_addr: 1,
            refs: RefCounter { count: 0, allocated: false },
            allocated: true,
            written: true,
            is_copy: false,
        }
    }
}

} // verus!
