//! Handles that the system gives out.
use vstd::prelude::*;

verus! {

/// The handle stands for something: it is neither 0 nor -1.
pub open spec fn is_valid(handle: isize) -> bool {
    handle != 0 && handle != -1
}

/// Whether the handle stands for something.
pub fn valid(handle: isize) -> (r: bool)
    ensures
        r == is_valid(handle),
        r == (handle != 0 && handle != -1),
{
    handle != 0 && handle != -1
}

} // verus!
