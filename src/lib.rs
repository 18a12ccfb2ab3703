//! Reading and writing the brace-delimited key/value level format, mapping it to
//! typed level entities, and rebuilding the faces of convex solids from their
//! bounding planes.
use vstd::prelude::*;

pub mod error;
pub mod fields;
pub mod generic;
pub mod geometry;
pub mod num;
pub mod round_trip;
pub mod text;
pub mod vmf;

verus! {

} // verus!
