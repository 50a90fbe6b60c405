//! Structural metadata: the small integer newtypes that describe shape
//! rather than payload.
//!
//! They are kept distinct so a format can choose different wire widths for
//! "which variant is present" and "how many items follow".

use vstd::prelude::*;

verus! {

/// The discriminant naming which variant of a tagged union is present.
#[derive(Debug, Clone, Copy, PartialEq, Eq, Structural)]
pub struct VariantIdx(pub usize);

impl VariantIdx {
    /// Wrap a raw variant index.
    pub fn new(v: usize) -> (r: VariantIdx)
        ensures
            r.0 == v,
    {
        VariantIdx(v)
    }

    /// The raw variant index.
    pub fn value(&self) -> (r: usize)
        ensures
            r == self.0,
    {
        self.0
    }
}

/// The number of items that follow in an encoded sequence or map.
#[derive(Debug, Clone, Copy, PartialEq, Eq, Structural)]
pub struct SequenceLen(pub usize);

impl SequenceLen {
    /// Wrap a raw element count.
    pub fn new(v: usize) -> (r: SequenceLen)
        ensures
            r.0 == v,
    {
        SequenceLen(v)
    }

    /// The raw element count.
    pub fn value(&self) -> (r: usize)
        ensures
            r == self.0,
    {
        self.0
    }
}

} // verus!

