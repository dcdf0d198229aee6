//! Normalisation of a bound given in any primitive integer type to the working type `usize`.

use vstd::prelude::*;

verus! {

/// A primitive integer that can stand for a sieve bound.
pub trait Numable: Sized {
    /// The mathematical value that `self` stands for.
    spec fn num_value(&self) -> int;

    /// Converts `self` to `usize`. A negative value, or one that `usize` cannot hold, is no
    /// bound: callers have to rule it out rather than have it wrap.
    fn to_num(self) -> (r: usize)
        requires
            0 <= self.num_value() <= usize::MAX,
        ensures
            r as int == self.num_value(),
    ;
}

impl Numable for u8 {
    open spec fn num_value(&self) -> int {
        *self as int
    }

    fn to_num(self) -> (r: usize) {
        self as usize
    }
}

impl Numable for i8 {
    open spec fn num_value(&self) -> int {
        *self as int
    }

    fn to_num(self) -> (r: usize) {
        self as usize
    }
}

impl Numable for u16 {
    open spec fn num_value(&self) -> int {
        *self as int
    }

    fn to_num(self) -> (r: usize) {
        self as usize
    }
}

impl Numable for i16 {
    open spec fn num_value(&self) -> int {
        *self as int
    }

    fn to_num(self) -> (r: usize) {
        self as usize
    }
}

impl Numable for u32 {
    open spec fn num_value(&self) -> int {
        *self as int
    }

    fn to_num(self) -> (r: usize) {
        self as usize
    }
}

impl Numable for i32 {
    open spec fn num_value(&self) -> int {
        *self as int
    }

    fn to_num(self) -> (r: usize) {
        self as usize
    }
}

impl Numable for u64 {
    open spec fn num_value(&self) -> int {
        *self as int
    }

    fn to_num(self) -> (r: usize) {
        self as usize
    }
}

impl Numable for i64 {
    open spec fn num_value(&self) -> int {
        *self as int
    }

    fn to_num(self) -> (r: usize) {
        self as usize
    }
}

impl Numable for u128 {
    open spec fn num_value(&self) -> int {
        *self as int
    }

    fn to_num(self) -> (r: usize) {
        self as usize
    }
}

impl Numable for i128 {
    open spec fn num_value(&self) -> int {
        *self as int
    }

    fn to_num(self) -> (r: usize) {
        self as usize
    }
}

} // verus!
