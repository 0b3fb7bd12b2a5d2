//! A binary max-heap whose elements can be re-prioritized in place.
//!
//! Next to the array-backed heap, the structure keeps an index from each
//! element's unique identifier to its current slot, so that an element whose
//! priority changed can be found without scanning and moved back into place.
use vstd::prelude::*;

pub mod heap;
pub mod heap_spec;
pub mod laws;
pub mod order;

pub use heap::BinaryMaxHeap;

verus! {

/// A stable unique identifier for an element stored in a [`BinaryMaxHeap`].
pub trait Uid {
    /// The identifier, as a mathematical function of the value.
    spec fn spec_uid(&self) -> u64;

    /// Returns the identifier. The same value must be returned on every call
    /// for a given element.
    fn uid(&self) -> (r: u64)
        ensures
            r == self.spec_uid(),
    ;
}

impl Uid for u32 {
    open spec fn spec_uid(&self) -> u64 {
        *self as u64
    }

    fn uid(&self) -> (r: u64) {
        *self as u64
    }
}

} // verus!
