//! Addresses of heap words, in bytes.
use vstd::prelude::*;

verus! {

/// A byte address in the heap. As a block reference it names the block's
/// first payload word (its value pointer); one word lower is its header.
#[derive(Debug, Clone, Copy, PartialEq, Eq, Structural)]
pub struct Value(pub usize);

impl Value {
    /// The null address; no block ever lives there.
    pub fn null() -> (r: Value)
        ensures
            r.0 == 0,
    {
        Value(0)
    }
}

} // verus!
