//! What the index asks of a point type.

use crate::scalar::Codec;
use vstd::prelude::*;

verus! {

/// A reference to a stored record: the tree that holds it, then its offset
/// there. Tree 0 is the staging area, where the offset is the position among
/// the staged inserts.
pub type Location = (u32, u64);

/// A key of the index: a value with an encoding that can be tested against a
/// bounding box.
pub trait Point: Codec {
    /// The closed axis-aligned box that queries are made with.
    type Bounds;

    /// Whether the point touches the box.
    spec fn overlaps_spec(&self, bbox: &Self::Bounds) -> bool;

    /// Whether the box is ordered: in no dimension does its low lie above
    /// its high. A box that is not ordered holds nothing.
    spec fn ordered_spec(bbox: &Self::Bounds) -> bool;

    /// Whether the box is ordered.
    fn is_ordered(bbox: &Self::Bounds) -> (b: bool)
        ensures
            b == Self::ordered_spec(bbox),
    ;

    /// Whether the point touches the box.
    fn overlaps(&self, bbox: &Self::Bounds) -> (b: bool)
        ensures
            b == self.overlaps_spec(bbox),
    ;
}

} // verus!
