//! Numeric conversions that are lossless by type, not merely by value.

use vstd::prelude::*;

verus! {

/// Converts a value to `usize`; implemented only for types that are never
/// wider than a `usize`, so the conversion is exact.
///
/// Unlike `try_into` + `unwrap`, a use of this trait on a wider type fails
/// to exist at all rather than at runtime.
pub trait AsUsize: Sized {
    /// The value, as a mathematical integer.
    spec fn as_usize_spec(self) -> int;

    fn as_usize(self) -> (r: usize)
        ensures
            r as int == self.as_usize_spec(),
    ;
}

impl AsUsize for u8 {
    open spec fn as_usize_spec(self) -> int {
        self as int
    }

    fn as_usize(self) -> (r: usize) {
        self as usize
    }
}

impl AsUsize for u16 {
    open spec fn as_usize_spec(self) -> int {
        self as int
    }

    fn as_usize(self) -> (r: usize) {
        self as usize
    }
}

impl AsUsize for u32 {
    open spec fn as_usize_spec(self) -> int {
        self as int
    }

    fn as_usize(self) -> (r: usize) {
        self as usize
    }
}

} // verus!
