use vstd::prelude::*;

verus! {

/// A token of a key: a small value that can be copied and compared.
pub trait Token: Copy {
    /// Compares two tokens for equality.
    fn same(&self, other: &Self) -> (r: bool)
        ensures
            r == (*self == *other),
    ;
}

impl Token for char {
    fn same(&self, other: &char) -> (r: bool) {
        *self == *other
    }
}

impl Token for u8 {
    fn same(&self, other: &u8) -> (r: bool) {
        *self == *other
    }
}

} // verus!
