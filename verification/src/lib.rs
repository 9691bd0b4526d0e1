//! Building blocks of a multidimensional spatial index: coordinates that mix
//! scalars and intervals, their byte encoding, the traversal of one tree block
//! under a bounding box, and the staging area of pending inserts and deletes.

pub mod scalar;
pub mod point;
pub mod location_set;
pub mod mix;
pub mod order;
pub mod branch;
pub mod reach;
pub mod staging;
