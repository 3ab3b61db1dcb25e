use vstd::prelude::*;
use vstd::utf8::encode_utf8;

verus! {

/// The cost of retaining a value in the cache.
pub trait Weighted {
    /// The weight of `self`.
    spec fn weight_spec(&self) -> usize;

    fn weight(&self) -> (r: usize)
        ensures
            r == self.weight_spec(),
    ;
}

/// A string weighs its length in bytes.
impl Weighted for String {
    open spec fn weight_spec(&self) -> usize {
        encode_utf8(self@).len() as usize
    }

    fn weight(&self) -> (r: usize) {
        self.as_str().len()
    }
}

impl Weighted for str {
    open spec fn weight_spec(&self) -> usize {
        self.len()
    }

    fn weight(&self) -> (r: usize) {
        self.len()
    }
}

impl<'a> Weighted for &'a str {
    open spec fn weight_spec(&self) -> usize {
        (*self).len()
    }

    fn weight(&self) -> (r: usize) {
        (*self).len()
    }
}

/// A byte vector weighs its length.
impl Weighted for Vec<u8> {
    open spec fn weight_spec(&self) -> usize {
        self.len()
    }

    fn weight(&self) -> (r: usize) {
        self.len()
    }
}

impl<'a> Weighted for &'a Vec<u8> {
    open spec fn weight_spec(&self) -> usize {
        (*self).len()
    }

    fn weight(&self) -> (r: usize) {
        (*self).len()
    }
}

} // verus!
