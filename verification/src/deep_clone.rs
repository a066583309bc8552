use vstd::prelude::*;

verus! {

/// Cloning with a contract: the copy is equal, as a mathematical value, to the
/// original.  The standard `Clone` derive carries no specification, so types
/// whose copies the contracts must speak about implement this trait instead.
pub trait DeepClone: Sized {
    fn deep_clone(&self) -> (r: Self)
        ensures
            r == *self,
    ;
}

impl DeepClone for u8 {
    fn deep_clone(&self) -> (r: u8) {
        *self
    }
}

impl DeepClone for u64 {
    fn deep_clone(&self) -> (r: u64) {
        *self
    }
}

impl DeepClone for i32 {
    fn deep_clone(&self) -> (r: i32) {
        *self
    }
}

impl DeepClone for i64 {
    fn deep_clone(&self) -> (r: i64) {
        *self
    }
}

impl DeepClone for usize {
    fn deep_clone(&self) -> (r: usize) {
        *self
    }
}

impl DeepClone for bool {
    fn deep_clone(&self) -> (r: bool) {
        *self
    }
}

impl DeepClone for String {
    fn deep_clone(&self) -> (r: String) {
        self.clone()
    }
}

} // verus!
