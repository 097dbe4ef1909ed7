//! Giving up a value without dropping it.

use vstd::prelude::*;

verus! {

/// `core::mem::forget` takes a value and does not run its destructor. Nothing is
/// claimed of it.
pub assume_specification<T>[ core::mem::forget::<T> ](t: T);

} // verus!
